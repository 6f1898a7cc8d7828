//! What holds of a lock word that any number of threads work on.
//!
//! A history lists all operations on one lock word, of all threads, in the order in which its
//! writes take effect. A relaxed load may stand anywhere and may have found an outdated value. An
//! exchange reads and writes in one step, so it finds the latest write before it.

use crate::attempt::{
    attempt_ops, attempts_of, genuine, is_round, is_wait, law_sleeps_after_every_limit_of_failures,
    only_last_may_win, ops_of, Attempt,
};
use crate::backoff::SLEEP_NANOS;
use crate::raw::{LockRound, LOCKED, UNLOCKED};
use crate::trace::Op;
use vstd::prelude::*;

verus! {

/// The operation has taken the lock: an exchange that found the lock free and wrote it locked.
pub open spec fn acquires(op: Op) -> bool {
    op == (Op::SwapAcquire { found: UNLOCKED, new: LOCKED })
}

/// The operation has given the lock up.
pub open spec fn releases(op: Op) -> bool {
    op == (Op::StoreRelease { value: UNLOCKED })
}

/// The operation is one that the methods of the lock perform on a lock that exists.
pub open spec fn is_lock_op(op: Op) -> bool {
    match op {
        Op::Init { value } => false,
        Op::LoadRelaxed { value } => true,
        Op::SwapAcquire { found, new } => new == LOCKED,
        Op::StoreRelease { value } => value == UNLOCKED,
    }
}

/// The value of the lock word after `ops`.
pub open spec fn word(ops: Seq<Op>) -> u32
    decreases ops.len(),
{
    if ops.len() == 0 {
        UNLOCKED
    } else {
        match ops.last() {
            Op::Init { value } => value,
            Op::LoadRelaxed { value } => word(ops.drop_last()),
            Op::SwapAcquire { found, new } => new,
            Op::StoreRelease { value } => value,
        }
    }
}

/// How many holders the lock has after `ops`: how many operations took it, less how many gave it
/// up.
pub open spec fn holders(ops: Seq<Op>) -> int
    decreases ops.len(),
{
    if ops.len() == 0 {
        0
    } else if acquires(ops.last()) {
        holders(ops.drop_last()) + 1
    } else if releases(ops.last()) {
        holders(ops.drop_last()) - 1
    } else {
        holders(ops.drop_last())
    }
}

/// Going by `ops`, the lock is held: it was taken, and not given up since.
pub open spec fn holds(ops: Seq<Op>) -> bool
    decreases ops.len(),
{
    if ops.len() == 0 {
        false
    } else if acquires(ops.last()) {
        true
    } else if releases(ops.last()) {
        false
    } else {
        holds(ops.drop_last())
    }
}

/// What an atomic exchange finds after `ops` is the value of the word.
pub open spec fn finds_latest(ops: Seq<Op>, op: Op) -> bool {
    op matches Op::SwapAcquire { found, new } ==> found == word(ops)
}

/// After `ops`, the lock is given up only if it has a holder: each unlock is paired with an
/// acquisition.
pub open spec fn is_paired(ops: Seq<Op>, op: Op) -> bool {
    releases(op) ==> holders(ops) > 0
}

/// `ops` is a history of a lock that was created unlocked and that is used as its methods allow.
pub open spec fn is_history(ops: Seq<Op>) -> bool {
    &&& ops.len() > 0
    &&& ops[0] == (Op::Init { value: UNLOCKED })
    &&& forall|i: int|
        0 < i < ops.len() ==> is_lock_op(#[trigger] ops[i]) && finds_latest(ops.take(i), ops[i])
            && is_paired(ops.take(i), ops[i])
}

/// Every load from position `from` on found the value that the word had at that point, as it does
/// where no other thread works on the word.
pub open spec fn loads_are_current(ops: Seq<Op>, from: int) -> bool {
    forall|i: int|
        from <= i < ops.len() ==> (#[trigger] ops[i] matches Op::LoadRelaxed { value } ==> value
            == word(ops.take(i)))
}

/// The beginning of a history is a history.
proof fn lemma_beginning(ops: Seq<Op>, n: int)
    requires
        is_history(ops),
        0 < n <= ops.len(),
    ensures
        is_history(ops.take(n)),
{
    let start = ops.take(n);
    assert forall|i: int| 0 < i < start.len() implies is_lock_op(#[trigger] start[i])
        && finds_latest(start.take(i), start[i]) && is_paired(start.take(i), start[i]) by {
        assert(start.take(i) == ops.take(i));
    }
}

/// A history goes on with an operation that the lock's methods perform, that finds the latest
/// write if it is an exchange, and that is paired with an acquisition if it gives the lock up.
pub proof fn lemma_extension(ops: Seq<Op>, op: Op)
    requires
        is_history(ops),
    ensures
        is_history(ops.push(op)) <==> is_lock_op(op) && finds_latest(ops, op) && is_paired(ops, op),
        ops.push(op).drop_last() == ops,
{
    let more = ops.push(op);
    let n = ops.len() as int;
    assert(more.drop_last() == ops);
    assert(more[n] == op);
    assert forall|i: int| 0 < i < n implies more.take(i) == ops.take(i) && more[i]
        == #[trigger] ops[i] by {}
}

/// The lock has at most one holder, and the lock word tells whether it has one: it is locked if
/// the lock is held and unlocked if it is free.
pub proof fn law_word_tells_the_only_holder(ops: Seq<Op>)
    requires
        is_history(ops),
    ensures
        holders(ops) == 0 || holders(ops) == 1,
        word(ops) == if holders(ops) == 1 { LOCKED } else { UNLOCKED },
    decreases ops.len(),
{
    let n = ops.len() - 1;
    if n == 0 {
        assert(holders(ops.drop_last()) == 0);
    } else {
        lemma_beginning(ops, n);
        law_word_tells_the_only_holder(ops.take(n));
    }
}

/// The lock has its holder if and only if it was taken and not given up since.
pub proof fn law_held_since_it_was_taken(ops: Seq<Op>)
    requires
        is_history(ops),
    ensures
        holds(ops) <==> holders(ops) == 1,
    decreases ops.len(),
{
    law_word_tells_the_only_holder(ops);
    let n = ops.len() - 1;
    if n == 0 {
        assert(!holds(ops.drop_last()));
    } else {
        lemma_beginning(ops, n);
        law_word_tells_the_only_holder(ops.take(n));
        law_held_since_it_was_taken(ops.take(n));
    }
}

/// As long as nobody gives the lock up it stays held.
proof fn lemma_stays_held(ops: Seq<Op>, from: int, to: int)
    requires
        is_history(ops),
        0 < from <= to <= ops.len(),
        holders(ops.take(from)) == 1,
        forall|k: int| from <= k < to ==> !releases(#[trigger] ops[k]),
    ensures
        holders(ops.take(to)) == 1,
    decreases to - from,
{
    if from < to {
        lemma_stays_held(ops, from, to - 1);
        assert(ops.take(to).drop_last() == ops.take(to - 1));
        lemma_beginning(ops, to);
        law_word_tells_the_only_holder(ops.take(to));
    }
}

/// Mutual exclusion: the lock cannot be taken while it is held. Between any two operations that
/// take the lock there is one that gives it up.
pub proof fn law_mutual_exclusion(ops: Seq<Op>, first: int, second: int)
    requires
        is_history(ops),
        0 <= first < second < ops.len(),
        acquires(ops[first]),
        acquires(ops[second]),
    ensures
        exists|k: int| first < k < second && releases(#[trigger] ops[k]),
{
    if forall|k: int| first < k < second ==> !releases(#[trigger] ops[k]) {
        lemma_beginning(ops, first);
        law_word_tells_the_only_holder(ops.take(first));
        lemma_beginning(ops, first + 1);
        law_word_tells_the_only_holder(ops.take(first + 1));
        lemma_stays_held(ops, first + 1, second);
        lemma_beginning(ops, second);
        law_word_tells_the_only_holder(ops.take(second));
    }
}

/// Whoever takes the lock sees what the last holder did: the exchange that takes it reads, with
/// acquire ordering, the very value that the last holder wrote with release ordering, or the value
/// that the lock was created with if nobody held it before.
pub proof fn law_acquisition_reads_the_last_release(ops: Seq<Op>, taken: int) -> (write: int)
    requires
        is_history(ops),
        0 <= taken < ops.len(),
        acquires(ops[taken]),
    ensures
        0 <= write < taken,
        write == 0 || releases(ops[write]),
        forall|k: int| write < k < taken ==> #[trigger] ops[k] is LoadRelaxed,
{
    lemma_free_word_was_released(ops, taken)
}

/// The latest write to a word that is unlocked is its creation or a release.
proof fn lemma_free_word_was_released(ops: Seq<Op>, n: int) -> (write: int)
    requires
        is_history(ops),
        0 < n <= ops.len(),
        word(ops.take(n)) == UNLOCKED,
    ensures
        0 <= write < n,
        write == 0 || releases(ops[write]),
        forall|k: int| write < k < n ==> #[trigger] ops[k] is LoadRelaxed,
    decreases n,
{
    assert(ops.take(n).drop_last() == ops.take(n - 1));
    if n == 1 {
        0
    } else if ops[n - 1] is LoadRelaxed {
        lemma_free_word_was_released(ops, n - 1)
    } else {
        n - 1
    }
}

/// Operation `k` ends an attempt to take the lock: it is an exchange, or a load that found the lock
/// held, and rightly so.
pub open spec fn ends_attempt(ops: Seq<Op>, k: int) -> bool {
    match ops[k] {
        Op::SwapAcquire { found, new } => true,
        Op::LoadRelaxed { value } => value != UNLOCKED && value == word(ops.take(k)),
        _ => false,
    }
}

/// At least one attempt to take the lock has ended at position `from` or later.
pub open spec fn attempt_ended_since(ops: Seq<Op>, from: int) -> bool {
    exists|k: int| from <= k < ops.len() && #[trigger] ends_attempt(ops, k)
}

/// As long as nobody takes the lock it stays free.
proof fn lemma_stays_free(ops: Seq<Op>, from: int, to: int)
    requires
        is_history(ops),
        0 < from <= to <= ops.len(),
        holders(ops.take(from)) == 0,
        forall|k: int| from <= k < to ==> !acquires(#[trigger] ops[k]),
    ensures
        holders(ops.take(to)) == 0,
    decreases to - from,
{
    if from < to {
        lemma_stays_free(ops, from, to - 1);
        assert(ops.take(to).drop_last() == ops.take(to - 1));
        lemma_beginning(ops, to);
        law_word_tells_the_only_holder(ops.take(to));
    }
}

/// The lock is free after its first `free` operations, be it just created or given up, and nobody
/// gives it up later. As soon as an attempt to take it has ended, exactly one exchange has taken
/// the lock, and the lock is held.
pub proof fn law_one_exchange_takes_a_free_lock(ops: Seq<Op>, free: int) -> (taken: int)
    requires
        is_history(ops),
        0 < free <= ops.len(),
        holders(ops.take(free)) == 0,
        forall|k: int| free <= k < ops.len() ==> !releases(#[trigger] ops[k]),
        attempt_ended_since(ops, free),
    ensures
        free <= taken < ops.len(),
        acquires(ops[taken]),
        forall|k: int| free <= k < ops.len() && k != taken ==> !acquires(#[trigger] ops[k]),
        holders(ops) == 1,
{
    let n = ops.len() as int;
    if forall|k: int| free <= k < n ==> !acquires(#[trigger] ops[k]) {
        let k = choose|k: int| free <= k < n && #[trigger] ends_attempt(ops, k);
        lemma_stays_free(ops, free, k);
        lemma_beginning(ops, k);
        law_word_tells_the_only_holder(ops.take(k));
    }
    let taken = choose|k: int| free <= k < n && acquires(#[trigger] ops[k]);
    assert forall|k: int| free <= k < n && k != taken implies !acquires(#[trigger] ops[k]) by {
        if acquires(ops[k]) {
            if k < taken {
                law_mutual_exclusion(ops, k, taken);
            } else {
                law_mutual_exclusion(ops, taken, k);
            }
        }
    }
    lemma_beginning(ops, taken);
    law_word_tells_the_only_holder(ops.take(taken));
    lemma_beginning(ops, taken + 1);
    law_word_tells_the_only_holder(ops.take(taken + 1));
    lemma_stays_held(ops, taken + 1, n);
    assert(ops.take(n) == ops);
    taken
}

/// A lock is free when it has just been created, and right after every unlock.
pub proof fn law_lock_is_free_at_first_and_after_unlock(ops: Seq<Op>, n: int)
    requires
        is_history(ops),
        0 < n <= ops.len(),
        n == 1 || releases(ops[n - 1]),
    ensures
        holders(ops.take(n)) == 0,
        word(ops.take(n)) == UNLOCKED,
{
    lemma_beginning(ops, n);
    law_word_tells_the_only_holder(ops.take(n));
    if n > 1 {
        lemma_beginning(ops, n - 1);
        law_word_tells_the_only_holder(ops.take(n - 1));
    }
}

/// From the exchange that takes the lock until somebody gives it up, the lock word is 1 and the lock
/// has its one holder, whatever else is done to the word meanwhile.
pub proof fn law_word_stays_locked_while_held(ops: Seq<Op>, taken: int, n: int)
    requires
        is_history(ops),
        0 <= taken < n <= ops.len(),
        ops[taken] == (Op::SwapAcquire { found: 0, new: 1 }),
        forall|k: int| taken < k < n ==> !(#[trigger] ops[k] is StoreRelease),
    ensures
        word(ops.take(n)) == 1,
        holders(ops.take(n)) == 1,
{
    lemma_beginning(ops, taken);
    law_word_tells_the_only_holder(ops.take(taken));
    lemma_beginning(ops, taken + 1);
    law_word_tells_the_only_holder(ops.take(taken + 1));
    lemma_stays_held(ops, taken + 1, n);
    lemma_beginning(ops, n);
    law_word_tells_the_only_holder(ops.take(n));
}

/// From an unlock until the next exchange the lock word is 0 and nobody holds the lock, whatever
/// else is done to the word meanwhile; and that exchange finds 0.
pub proof fn law_word_stays_unlocked_until_exchange(ops: Seq<Op>, freed: int, n: int)
    requires
        is_history(ops),
        0 <= freed < n <= ops.len(),
        ops[freed] == (Op::StoreRelease { value: 0 }),
        forall|k: int| freed < k < n ==> !(#[trigger] ops[k] is SwapAcquire),
    ensures
        word(ops.take(n)) == 0,
        holders(ops.take(n)) == 0,
        n < ops.len() && ops[n] is SwapAcquire ==> ops[n]->found == 0,
{
    lemma_beginning(ops, freed);
    law_word_tells_the_only_holder(ops.take(freed));
    lemma_beginning(ops, freed + 1);
    law_word_tells_the_only_holder(ops.take(freed + 1));
    lemma_stays_free(ops, freed + 1, n);
    lemma_beginning(ops, n);
    law_word_tells_the_only_holder(ops.take(n));
}

/// Looking changes nothing: any number of loads leave the lock word and the holder as they were, so
/// that each of them, where it finds the current value, shows the same.
pub proof fn law_looking_changes_nothing(ops: Seq<Op>, looks: Seq<Op>)
    requires
        is_history(ops),
        forall|i: int| 0 <= i < looks.len() ==> #[trigger] looks[i] is LoadRelaxed,
    ensures
        is_history(ops + looks),
        word(ops + looks) == word(ops),
        holders(ops + looks) == holders(ops),
        holds(ops + looks) == holds(ops),
    decreases looks.len(),
{
    if looks.len() > 0 {
        let before = looks.drop_last();
        law_looking_changes_nothing(ops, before);
        assert(ops + looks == (ops + before).push(looks.last()));
        lemma_extension(ops + before, looks.last());
    }
}

/// An exchange takes the lock if and only if nobody holds it. If it does not take the lock it
/// changes nothing: the word keeps its value and the lock its holder.
pub proof fn law_exchange_takes_a_free_lock(ops: Seq<Op>, found: u32)
    requires
        is_history(ops.push(Op::SwapAcquire { found, new: LOCKED })),
        ops.len() > 0,
    ensures
        found == UNLOCKED <==> holders(ops) == 0,
        found == UNLOCKED ==> holders(ops.push(Op::SwapAcquire { found, new: LOCKED })) == 1,
        found != UNLOCKED ==> {
            &&& holders(ops.push(Op::SwapAcquire { found, new: LOCKED })) == holders(ops)
            &&& word(ops.push(Op::SwapAcquire { found, new: LOCKED })) == word(ops)
        },
{
    let op = Op::SwapAcquire { found, new: LOCKED };
    let more = ops.push(op);
    assert(more.take(ops.len() as int) == ops);
    lemma_beginning(more, ops.len() as int);
    lemma_extension(ops, op);
    law_word_tells_the_only_holder(ops);
}

/// An unlock leaves the lock free, and the next exchange takes it.
pub proof fn law_unlock_frees_the_lock(ops: Seq<Op>, found: u32)
    requires
        is_history(ops.push(Op::StoreRelease { value: UNLOCKED })),
        ops.len() > 0,
    ensures
        holders(ops) == 1,
        holders(ops.push(Op::StoreRelease { value: UNLOCKED })) == 0,
        word(ops.push(Op::StoreRelease { value: UNLOCKED })) == UNLOCKED,
        is_history(
            ops.push(Op::StoreRelease { value: UNLOCKED }).push(
                Op::SwapAcquire { found, new: LOCKED },
            ),
        ) <==> found == UNLOCKED,
{
    let op = Op::StoreRelease { value: UNLOCKED };
    let more = ops.push(op);
    assert(more.take(ops.len() as int) == ops);
    lemma_beginning(more, ops.len() as int);
    lemma_extension(ops, op);
    law_word_tells_the_only_holder(ops);
    lemma_extension(more, Op::SwapAcquire { found, new: LOCKED });
}

/// A load that finds the current value shows whether the lock is held. It changes neither the word
/// nor the holder.
pub proof fn law_load_shows_whether_held(ops: Seq<Op>, value: u32)
    requires
        is_history(ops),
        value == word(ops),
    ensures
        value != UNLOCKED <==> holders(ops) == 1,
        is_history(ops.push(Op::LoadRelaxed { value })),
        word(ops.push(Op::LoadRelaxed { value })) == word(ops),
        holders(ops.push(Op::LoadRelaxed { value })) == holders(ops),
{
    law_word_tells_the_only_holder(ops);
    lemma_extension(ops, Op::LoadRelaxed { value });
}

/// A round performs only operations of the lock and does not give it up. The operation that takes
/// the lock, if there is one, is its last: a round takes the lock if and only if it ends with the
/// lock acquired.
pub proof fn law_round_takes_the_lock_iff_acquired(
    attempts: Seq<Attempt>,
    outcome: LockRound,
    i: int,
)
    requires
        is_round(attempts, outcome),
        0 <= i < ops_of(attempts).len(),
    ensures
        is_lock_op(ops_of(attempts)[i]),
        !releases(ops_of(attempts)[i]),
        acquires(ops_of(attempts)[i]) <==> outcome is Acquired && i == ops_of(attempts).len() - 1,
{
    lemma_only_last_takes(attempts, i);
}

/// A thread that waits until it has the lock, over as many rounds as it takes, takes it exactly
/// once, by the last operation that it performs.
pub proof fn law_wait_takes_the_lock_once(rounds: Seq<Seq<Attempt>>, i: int)
    requires
        is_wait(rounds),
        0 <= i < ops_of(attempts_of(rounds)).len(),
    ensures
        is_lock_op(ops_of(attempts_of(rounds))[i]),
        !releases(ops_of(attempts_of(rounds))[i]),
        acquires(ops_of(attempts_of(rounds))[i]) <==> i == ops_of(attempts_of(rounds)).len() - 1,
{
    law_sleeps_after_every_limit_of_failures(rounds);
    lemma_only_last_takes(attempts_of(rounds), i);
}

/// Where only the last attempt may win, only the last operation may take the lock.
proof fn lemma_only_last_takes(attempts: Seq<Attempt>, i: int)
    requires
        only_last_may_win(attempts),
        0 <= i < ops_of(attempts).len(),
    ensures
        is_lock_op(ops_of(attempts)[i]),
        !releases(ops_of(attempts)[i]),
        acquires(ops_of(attempts)[i]) <==> attempts.last() is Won && i == ops_of(attempts).len()
            - 1,
{
    let before = attempts.drop_last();
    if i < ops_of(before).len() {
        lemma_failed_attempts_take_nothing(before, i);
    }
}

/// Attempts that fail perform only operations of the lock and neither take it nor give it up.
proof fn lemma_failed_attempts_take_nothing(attempts: Seq<Attempt>, i: int)
    requires
        forall|j: int|
            0 <= j < attempts.len() ==> genuine(#[trigger] attempts[j]) && !(attempts[j] is Won),
        0 <= i < ops_of(attempts).len(),
    ensures
        is_lock_op(ops_of(attempts)[i]),
        !releases(ops_of(attempts)[i]),
        !acquires(ops_of(attempts)[i]),
    decreases attempts.len(),
{
    let before = attempts.drop_last();
    if i < ops_of(before).len() {
        lemma_failed_attempts_take_nothing(before, i);
    }
}

/// A waiting thread that has performed `before` has the lock after its attempts if and only if the
/// last one has won, unless it had the lock all along.
pub proof fn law_waiting_thread_holds_iff_won(before: Seq<Op>, attempts: Seq<Attempt>)
    requires
        only_last_may_win(attempts),
    ensures
        holds(before + ops_of(attempts)) <==> attempts.last() is Won || holds(before),
{
    let failed = attempts.drop_last();
    lemma_failing_keeps_holds(before, failed);
    lemma_holds_after_attempt(before + ops_of(failed), attempts.last());
    assert(before + ops_of(attempts) == before + ops_of(failed) + attempt_ops(attempts.last()));
}

/// One attempt gives the lock if it wins, and else changes nothing about who holds it.
proof fn lemma_holds_after_attempt(before: Seq<Op>, attempt: Attempt)
    requires
        genuine(attempt),
    ensures
        holds(before + attempt_ops(attempt)) <==> attempt is Won || holds(before),
{
    let ops = before + attempt_ops(attempt);
    if attempt is Busy {
        assert(ops.drop_last() == before);
    } else {
        let loaded = ops.drop_last();
        assert(loaded.drop_last() == before);
        assert(holds(loaded) == holds(before));
    }
}

/// Attempts that fail change nothing about who holds the lock.
proof fn lemma_failing_keeps_holds(before: Seq<Op>, attempts: Seq<Attempt>)
    requires
        forall|j: int|
            0 <= j < attempts.len() ==> genuine(#[trigger] attempts[j]) && !(attempts[j] is Won),
    ensures
        holds(before + ops_of(attempts)) <==> holds(before),
    decreases attempts.len(),
{
    if attempts.len() > 0 {
        let rest = attempts.drop_last();
        lemma_failing_keeps_holds(before, rest);
        lemma_holds_after_attempt(before + ops_of(rest), attempts[attempts.len() - 1]);
        assert(before + ops_of(attempts) == before + ops_of(rest) + attempt_ops(attempts.last()));
    }
}

/// A round on a free lock that no other thread works on meanwhile takes the lock at the first
/// attempt. One on a lock that stays held only reads, and ends in a sleep.
pub proof fn law_undisturbed_round(ops: Seq<Op>, attempts: Seq<Attempt>, outcome: LockRound)
    requires
        is_history(ops),
        is_round(attempts, outcome),
        is_history(ops + ops_of(attempts)),
        loads_are_current(ops + ops_of(attempts), ops.len() as int),
    ensures
        holders(ops) == 0 ==> outcome is Acquired && attempts == seq![Attempt::Won],
        holders(ops) == 1 ==> {
            &&& outcome == (LockRound::Sleep { nanos: SLEEP_NANOS })
            &&& forall|i: int|
                0 <= i < attempts.len() ==> #[trigger] attempts[i] == (Attempt::Busy {
                    seen: LOCKED,
                })
        },
{
    law_word_tells_the_only_holder(ops);
    let all = ops + ops_of(attempts);
    let n = ops.len() as int;
    assert(all.take(n) == ops);
    lemma_first_attempt(attempts);
    let first = attempt_ops(attempts[0]);
    assert(all[n] == first[0]);
    if holders(ops) == 0 {
        assert(all[n + 1] == first[1]);
        assert(all.take(n + 1).drop_last() == ops);
    } else {
        lemma_held_lock_only_read(ops, attempts);
    }
}

/// The operations of several attempts begin with those of the first one.
proof fn lemma_first_attempt(attempts: Seq<Attempt>)
    requires
        attempts.len() > 0,
    ensures
        attempt_ops(attempts[0]).is_prefix_of(ops_of(attempts)),
    decreases attempts.len(),
{
    let before = attempts.drop_last();
    if attempts.len() == 1 {
        assert(ops_of(before) == Seq::<Op>::empty());
    } else {
        lemma_first_attempt(before);
    }
}

/// Attempts on a lock that is held, undisturbed by other threads, only see it held.
proof fn lemma_held_lock_only_read(ops: Seq<Op>, attempts: Seq<Attempt>)
    requires
        is_history(ops),
        holders(ops) == 1,
        forall|i: int| 0 <= i < attempts.len() ==> genuine(#[trigger] attempts[i]),
        loads_are_current(ops + ops_of(attempts), ops.len() as int),
    ensures
        word(ops + ops_of(attempts)) == LOCKED,
        forall|i: int|
            0 <= i < attempts.len() ==> #[trigger] attempts[i] == (Attempt::Busy { seen: LOCKED }),
    decreases attempts.len(),
{
    if attempts.len() == 0 {
        law_word_tells_the_only_holder(ops);
    } else {
        let before = attempts.drop_last();
        let last = attempts[attempts.len() - 1];
        let start = ops + ops_of(before);
        let all = ops + ops_of(attempts);
        let n = start.len() as int;
        assert forall|i: int| ops.len() <= i < start.len() implies (
        #[trigger] start[i] matches Op::LoadRelaxed { value } ==> value == word(start.take(i))) by {
            assert(start[i] == all[i]);
            assert(start.take(i) == all.take(i));
        }
        lemma_held_lock_only_read(ops, before);
        assert(all[n] == attempt_ops(last)[0]);
        assert(all.take(n) == start);
        assert forall|i: int| 0 <= i < attempts.len() implies #[trigger] attempts[i] == (
        Attempt::Busy { seen: LOCKED }) by {
            if i < before.len() {
                assert(attempts[i] == before[i]);
            }
        }
    }
}

} // verus!
