//! What a thread that waits for the lock does to the lock word.
//!
//! Waiting is a sequence of attempts. An attempt looks at the word first and tries to take the lock
//! only if the word showed it free. A round is a run of attempts that ends when the lock is taken
//! or when the thread has to sleep.

use crate::backoff::{SLEEP_NANOS, SPIN_LIMIT};
use crate::raw::{LockRound, LOCKED, UNLOCKED};
use crate::trace::{accesses, Access, Op};
use std::sync::atomic::AtomicU32;
use vstd::prelude::*;

verus! {

/// One attempt to take the lock, with what it found.
pub enum Attempt {
    /// The load found `seen`: the lock is held.
    Busy { seen: u32 },
    /// The load found the lock free, but the exchange found `found`: another thread was faster.
    Lost { found: u32 },
    /// The load and the exchange found the lock free, so it is taken.
    Won,
}

/// The values that an attempt found are those that make it what it is.
pub open spec fn genuine(attempt: Attempt) -> bool {
    match attempt {
        Attempt::Busy { seen } => seen != UNLOCKED,
        Attempt::Lost { found } => found != UNLOCKED,
        Attempt::Won => true,
    }
}

/// The operations of an attempt, in order.
pub open spec fn attempt_ops(attempt: Attempt) -> Seq<Op> {
    match attempt {
        Attempt::Busy { seen } => seq![Op::LoadRelaxed { value: seen }],
        Attempt::Lost { found } => seq![
            Op::LoadRelaxed { value: UNLOCKED },
            Op::SwapAcquire { found, new: LOCKED },
        ],
        Attempt::Won => seq![
            Op::LoadRelaxed { value: UNLOCKED },
            Op::SwapAcquire { found: UNLOCKED, new: LOCKED },
        ],
    }
}

/// The operations of several attempts, one attempt after the other.
pub open spec fn ops_of(attempts: Seq<Attempt>) -> Seq<Op>
    decreases attempts.len(),
{
    if attempts.len() == 0 {
        Seq::empty()
    } else {
        ops_of(attempts.drop_last()) + attempt_ops(attempts.last())
    }
}

/// Every attempt but the last one failed.
pub open spec fn only_last_may_win(attempts: Seq<Attempt>) -> bool {
    &&& attempts.len() > 0
    &&& forall|i: int| 0 <= i < attempts.len() ==> genuine(#[trigger] attempts[i])
    &&& forall|i: int| 0 <= i < attempts.len() - 1 ==> !(#[trigger] attempts[i] is Won)
}

/// `attempts` make up one round that ends with `outcome`: it goes on until an attempt wins, and
/// asks for a sleep once the limit is reached and no attempt has won.
pub open spec fn is_round(attempts: Seq<Attempt>, outcome: LockRound) -> bool {
    &&& only_last_may_win(attempts)
    &&& attempts.len() <= SPIN_LIMIT
    &&& match outcome {
        LockRound::Acquired => attempts.last() is Won,
        LockRound::Sleep { nanos } => {
            &&& nanos == SLEEP_NANOS
            &&& !(attempts.last() is Won)
            &&& attempts.len() == SPIN_LIMIT
        },
    }
}

/// All attempts of several rounds, one round after the other.
pub open spec fn attempts_of(rounds: Seq<Seq<Attempt>>) -> Seq<Attempt>
    decreases rounds.len(),
{
    if rounds.len() == 0 {
        Seq::empty()
    } else {
        attempts_of(rounds.drop_last()) + rounds.last()
    }
}

/// `rounds` are what a thread goes through until it has the lock: each round but the last one
/// ends in a sleep, and the last one takes the lock.
pub open spec fn is_wait(rounds: Seq<Seq<Attempt>>) -> bool {
    &&& rounds.len() > 0
    &&& forall|i: int|
        0 <= i < rounds.len() - 1 ==> is_round(
            #[trigger] rounds[i],
            LockRound::Sleep { nanos: SLEEP_NANOS },
        )
    &&& is_round(rounds.last(), LockRound::Acquired)
}

/// What a round does, operation by operation, whatever other threads do meanwhile. It only loads the
/// word and exchanges it for 1. A load that finds 0 is directly followed by an exchange, and an
/// exchange directly follows such a load. An exchange that finds 0 is the last operation, and the
/// round has then acquired the lock; a round that has not acquired it has found the lock held by
/// the last operation of each attempt.
pub proof fn law_round_takes_every_chance(attempts: Seq<Attempt>, outcome: LockRound, i: int)
    requires
        is_round(attempts, outcome),
        0 <= i < ops_of(attempts).len(),
    ensures
        match ops_of(attempts)[i] {
            Op::LoadRelaxed { value } => value == 0 ==> i + 1 < ops_of(attempts).len() && ops_of(
                attempts,
            )[i + 1] is SwapAcquire,
            Op::SwapAcquire { found, new } => {
                &&& new == 1
                &&& 0 < i
                &&& ops_of(attempts)[i - 1] == (Op::LoadRelaxed { value: 0 })
                &&& found == 0 <==> outcome is Acquired && i == ops_of(attempts).len() - 1
            },
            _ => false,
        },
{
    lemma_attempt_by_attempt(attempts, i);
}

/// The same for any attempts of which only the last may have won.
proof fn lemma_attempt_by_attempt(attempts: Seq<Attempt>, i: int)
    requires
        forall|j: int| 0 <= j < attempts.len() ==> genuine(#[trigger] attempts[j]),
        forall|j: int| 0 <= j < attempts.len() - 1 ==> !(#[trigger] attempts[j] is Won),
        0 <= i < ops_of(attempts).len(),
    ensures
        match ops_of(attempts)[i] {
            Op::LoadRelaxed { value } => value == 0 ==> i + 1 < ops_of(attempts).len() && ops_of(
                attempts,
            )[i + 1] is SwapAcquire,
            Op::SwapAcquire { found, new } => {
                &&& new == 1
                &&& 0 < i
                &&& ops_of(attempts)[i - 1] == (Op::LoadRelaxed { value: 0 })
                &&& found == 0 <==> attempts.last() is Won && i == ops_of(attempts).len() - 1
            },
            _ => false,
        },
    decreases attempts.len(),
{
    let before = attempts.drop_last();
    if i < ops_of(before).len() {
        lemma_attempt_by_attempt(before, i);
    }
}

/// How a round ends, whatever other threads do meanwhile. One that ends in a sleep has made exactly
/// eight attempts, lost races among them, each begun with a load, none of which took the lock; the
/// sleep is of exactly one nanosecond. One that ends with the lock has made at most eight, and its
/// last operation is the exchange that found 0.
pub proof fn law_round_ends_with_the_lock_or_eight_failures(
    attempts: Seq<Attempt>,
    outcome: LockRound,
    flag: AtomicU32,
)
    requires
        is_round(attempts, outcome),
    ensures
        accesses(flag, ops_of(attempts)).filter(|a: Access| a.op is LoadRelaxed).len()
            == attempts.len(),
        match outcome {
            LockRound::Acquired => {
                &&& 1 <= attempts.len() <= 8
                &&& ops_of(attempts).len() > 0
                &&& ops_of(attempts).last() == (Op::SwapAcquire { found: 0, new: 1 })
            },
            LockRound::Sleep { nanos } => {
                &&& attempts.len() == 8
                &&& nanos == 1
            },
        },
{
    lemma_one_load_per_attempt(attempts, flag);
}

/// Every attempt loads the word once.
proof fn lemma_one_load_per_attempt(attempts: Seq<Attempt>, flag: AtomicU32)
    ensures
        accesses(flag, ops_of(attempts)).filter(|a: Access| a.op is LoadRelaxed).len()
            == attempts.len(),
    decreases attempts.len(),
{
    let is_load = |a: Access| a.op is LoadRelaxed;
    if attempts.len() == 0 {
        reveal(Seq::filter);
    } else {
        let before = accesses(flag, ops_of(attempts.drop_last()));
        let last = accesses(flag, attempt_ops(attempts.last()));
        lemma_one_load_per_attempt(attempts.drop_last(), flag);
        assert(accesses(flag, ops_of(attempts)) == before + last);
        Seq::filter_distributes_over_add(before, last, is_load);
        reveal_with_fuel(Seq::filter, 3);
    }
}

/// A waiting thread writes to the lock word only right after it has seen the lock free: the
/// operation before each exchange is a load that found the word unlocked.
pub proof fn law_exchange_follows_free_load(attempts: Seq<Attempt>, i: int)
    requires
        0 <= i < ops_of(attempts).len(),
        !(ops_of(attempts)[i] is LoadRelaxed),
    ensures
        ops_of(attempts)[i] is SwapAcquire,
        0 < i,
        ops_of(attempts)[i - 1] == (Op::LoadRelaxed { value: UNLOCKED }),
    decreases attempts.len(),
{
    let before = ops_of(attempts.drop_last());
    if i < before.len() {
        law_exchange_follows_free_load(attempts.drop_last(), i);
    }
}

/// The operations that a waiting thread performs tell what its attempts were.
pub proof fn law_operations_tell_the_attempts(first: Seq<Attempt>, second: Seq<Attempt>)
    requires
        forall|i: int| 0 <= i < first.len() ==> genuine(#[trigger] first[i]),
        forall|i: int| 0 <= i < second.len() ==> genuine(#[trigger] second[i]),
        ops_of(first) == ops_of(second),
    ensures
        first == second,
    decreases first.len(),
{
    if first.len() > 0 && second.len() > 0 {
        let ops = ops_of(first);
        let a = first[first.len() - 1];
        assert(ops.last() == attempt_ops(a).last());
        let before = ops.len() - attempt_ops(a).len();
        assert(ops_of(first.drop_last()) == ops.take(before));
        assert(ops_of(second.drop_last()) == ops.take(before));
        law_operations_tell_the_attempts(first.drop_last(), second.drop_last());
        assert(first == first.drop_last().push(a));
    } else if first.len() > 0 {
        assert(ops_of(first).len() > 0);
    } else if second.len() > 0 {
        assert(ops_of(second).len() > 0);
    }
}

/// While every load of a waiting thread shows the lock held, it writes nothing.
pub proof fn law_busy_waiting_only_reads(attempts: Seq<Attempt>)
    requires
        forall|i: int| 0 <= i < attempts.len() ==> #[trigger] attempts[i] is Busy,
    ensures
        ops_of(attempts).len() == attempts.len(),
        forall|i: int|
            0 <= i < attempts.len() ==> #[trigger] ops_of(attempts)[i] == (Op::LoadRelaxed {
                value: attempts[i]->seen,
            }),
    decreases attempts.len(),
{
    if attempts.len() > 0 {
        law_busy_waiting_only_reads(attempts.drop_last());
    }
}

/// A thread that waits for the lock sleeps once for every full run of failed attempts, it stops
/// at the first attempt that wins, and no attempt before that one has won.
pub proof fn law_sleeps_after_every_limit_of_failures(rounds: Seq<Seq<Attempt>>)
    requires
        is_wait(rounds),
    ensures
        only_last_may_win(attempts_of(rounds)),
        attempts_of(rounds).last() is Won,
        rounds.len() - 1 == (attempts_of(rounds).len() - 1) / (SPIN_LIMIT as int),
{
    lemma_failed_rounds(rounds.drop_last());
}

/// Rounds that end in a sleep are full runs of failed attempts.
proof fn lemma_failed_rounds(rounds: Seq<Seq<Attempt>>)
    requires
        forall|i: int|
            0 <= i < rounds.len() ==> is_round(
                #[trigger] rounds[i],
                LockRound::Sleep { nanos: SLEEP_NANOS },
            ),
    ensures
        attempts_of(rounds).len() == SPIN_LIMIT * rounds.len(),
        forall|i: int|
            0 <= i < attempts_of(rounds).len() ==> genuine(#[trigger] attempts_of(rounds)[i])
                && !(attempts_of(rounds)[i] is Won),
    decreases rounds.len(),
{
    if rounds.len() > 0 {
        lemma_failed_rounds(rounds.drop_last());
    }
}

} // verus!
