//! What holds of the callers of a lock, going by their traces.
//!
//! The first laws are on a single caller whose own trace tells all that was done to a lock. The
//! others are on any number of callers who share one. An event is an operation on the lock word
//! together with the caller whose trace records it; the events stand in the order of a history.
//! Each caller keeps to the contracts of the lock's methods: it performs the operations of the
//! lock, and gives the lock up only if its own trace shows it as the holder. A caller is a trace
//! rather than a thread, since the trace goes along when the lock is handed on.

use crate::attempt::{only_last_may_win, ops_of, Attempt};
use crate::history::{
    acquires, attempt_ended_since, finds_latest, holders, holds, is_history, is_lock_op,
    law_exchange_takes_a_free_lock, law_held_since_it_was_taken,
    law_lock_is_free_at_first_and_after_unlock, law_mutual_exclusion,
    law_one_exchange_takes_a_free_lock, law_waiting_thread_holds_iff_won,
    law_word_tells_the_only_holder, lemma_extension, releases, word,
};
use crate::raw::{LOCKED, UNLOCKED};
use crate::trace::{access, lemma_ops_on_push, ops_on, Access, Caller, Op, Trace};
use std::sync::atomic::AtomicU32;
use vstd::prelude::*;

verus! {

/// Where a caller's own trace tells all that was done to a lock, an exchange takes the lock if and
/// only if the trace does not show it held. So a lock just created is taken, a second taker is
/// refused, and after an unlock the lock is taken again.
pub proof fn law_own_trace_decides_the_exchange(log: Seq<Access>, flag: AtomicU32, found: u32)
    requires
        is_history(ops_on(log, flag)),
        is_history(ops_on(log.push(access(flag, Op::SwapAcquire { found, new: LOCKED })), flag)),
    ensures
        found == UNLOCKED <==> !holds(ops_on(log, flag)),
        ops_on(log, flag).last() is Init ==> found == UNLOCKED,
        acquires(ops_on(log, flag).last()) ==> found != UNLOCKED,
        releases(ops_on(log, flag).last()) ==> found == UNLOCKED,
{
    let ops = ops_on(log, flag);
    lemma_ops_on_push(log, flag, Op::SwapAcquire { found, new: LOCKED }, flag);
    law_exchange_takes_a_free_lock(ops, found);
    law_held_since_it_was_taken(ops);
    law_word_tells_the_only_holder(ops);
}

/// Where a caller's own trace tells all that was done to a lock, a load that finds the current
/// value shows the lock held if and only if the trace does.
pub proof fn law_own_trace_decides_the_load(log: Seq<Access>, flag: AtomicU32, value: u32)
    requires
        is_history(ops_on(log, flag)),
        value == word(ops_on(log, flag)),
    ensures
        value != UNLOCKED <==> holds(ops_on(log, flag)),
{
    law_held_since_it_was_taken(ops_on(log, flag));
    law_word_tells_the_only_holder(ops_on(log, flag));
}

/// Locks are independent: an operation on one lock word is none on another, so it changes neither
/// the other word nor who holds the other lock.
pub proof fn law_locks_are_independent(
    log: Seq<Access>,
    flag: AtomicU32,
    op: Op,
    other: AtomicU32,
)
    requires
        flag != other,
    ensures
        ops_on(log.push(access(flag, op)), other) == ops_on(log, other),
        word(ops_on(log.push(access(flag, op)), other)) == word(ops_on(log, other)),
        holders(ops_on(log.push(access(flag, op)), other)) == holders(ops_on(log, other)),
        holds(ops_on(log.push(access(flag, op)), other)) == holds(ops_on(log, other)),
{
    lemma_ops_on_push(log, flag, op, other);
}

/// Of two locks that a caller holds, unlocking one frees that one and leaves the other held: an
/// exchange on the one finds it free, and an exchange on the other is refused.
pub proof fn law_unlock_leaves_other_locks_held(
    log: Seq<Access>,
    flag: AtomicU32,
    other: AtomicU32,
    found: u32,
)
    requires
        flag != other,
        is_history(ops_on(log, flag)),
        is_history(ops_on(log, other)),
        holds(ops_on(log, flag)),
        holds(ops_on(log, other)),
    ensures
        ({
            let after = log.push(access(flag, Op::StoreRelease { value: UNLOCKED }));
            let exchange = Op::SwapAcquire { found, new: LOCKED };
            &&& is_history(ops_on(after, flag))
            &&& holders(ops_on(after, flag)) == 0
            &&& holders(ops_on(after, other)) == 1
            &&& is_history(ops_on(after.push(access(flag, exchange)), flag)) ==> found == UNLOCKED
            &&& is_history(ops_on(after.push(access(other, exchange)), other)) ==> found != UNLOCKED
        }),
{
    let release = Op::StoreRelease { value: UNLOCKED };
    let after = log.push(access(flag, release));
    let ops = ops_on(log, flag);
    lemma_ops_on_push(log, flag, release, flag);
    law_locks_are_independent(log, flag, release, other);
    law_held_since_it_was_taken(ops);
    law_held_since_it_was_taken(ops_on(log, other));
    lemma_extension(ops, release);
    if is_history(ops_on(after.push(access(flag, Op::SwapAcquire { found, new: LOCKED })), flag)) {
        law_own_trace_decides_the_exchange(after, flag, found);
    }
    if is_history(
        ops_on(after.push(access(other, Op::SwapAcquire { found, new: LOCKED })), other),
    ) {
        law_own_trace_decides_the_exchange(after, other, found);
    }
}

/// Going to a lock word and leaving it again adds nothing to the trace, for any trace and word: the
/// trace tells the same of every word as before.
pub proof fn law_passing_by_leaves_no_entry<'a>(
    trace: Trace,
    flag: &'a AtomicU32,
    caller: Caller<'a>,
    left: Trace,
    other: AtomicU32,
)
    requires
        call_ensures(Trace::on, (trace, flag), caller),
        call_ensures(Caller::into_trace, (caller,), left),
    ensures
        left@ == trace@,
        caller.ops() == ops_on(trace@, *flag),
        ops_on(left@, other) == ops_on(trace@, other),
{
}

/// An operation on the lock word, and the caller who performed it.
pub struct Event {
    pub who: int,
    pub op: Op,
}

/// The operations of all callers.
pub open spec fn all_ops(events: Seq<Event>) -> Seq<Op> {
    events.map_values(|event: Event| event.op)
}

/// The operations of caller `who`.
pub open spec fn ops_by(events: Seq<Event>, who: int) -> Seq<Op>
    decreases events.len(),
{
    if events.len() == 0 {
        Seq::empty()
    } else if events.last().who == who {
        ops_by(events.drop_last(), who).push(events.last().op)
    } else {
        ops_by(events.drop_last(), who)
    }
}

/// `events` are what callers do who share a lock that was created unlocked and who keep to the
/// contracts of its methods. Their exchanges find the latest write.
pub open spec fn is_sharing(events: Seq<Event>) -> bool {
    &&& events.len() > 0
    &&& events[0].op == (Op::Init { value: UNLOCKED })
    &&& forall|i: int|
        0 < i < events.len() ==> {
            &&& is_lock_op((#[trigger] events[i]).op)
            &&& finds_latest(all_ops(events.take(i)), events[i].op)
            &&& releases(events[i].op) ==> holds(ops_by(events.take(i), events[i].who))
        }
}

/// What the traces of callers who share a lock show.
spec fn traces_agree(events: Seq<Event>) -> bool {
    &&& is_history(all_ops(events))
    &&& forall|a: int, b: int|
        holds(#[trigger] ops_by(events, a)) && holds(#[trigger] ops_by(events, b)) ==> a == b
    &&& forall|a: int| holds(#[trigger] ops_by(events, a)) ==> holders(all_ops(events)) == 1
    &&& holders(all_ops(events)) == 1 ==> exists|a: int| holds(#[trigger] ops_by(events, a))
}

/// The beginning of what such callers do is what such callers do.
proof fn lemma_sharing_beginning(events: Seq<Event>, n: int)
    requires
        is_sharing(events),
        0 < n <= events.len(),
    ensures
        is_sharing(events.take(n)),
{
    let start = events.take(n);
    assert forall|i: int| 0 < i < start.len() implies {
        &&& is_lock_op((#[trigger] start[i]).op)
        &&& finds_latest(all_ops(start.take(i)), start[i].op)
        &&& releases(start[i].op) ==> holds(ops_by(start.take(i), start[i].who))
    } by {
        assert(start.take(i) == events.take(i));
    }
}

/// The traces of callers who share a lock agree at any time.
proof fn lemma_traces_agree(events: Seq<Event>)
    requires
        is_sharing(events),
    ensures
        traces_agree(events),
    decreases events.len(),
{
    let n = events.len() - 1;
    let before = events.take(n);
    let event = events[n];
    if n == 0 {
        assert(holders(all_ops(events).drop_last()) == 0);
        assert forall|a: int| !holds(#[trigger] ops_by(events, a)) by {
            assert(!holds(ops_by(before, a)));
            assert(ops_by(before, a).push(event.op).drop_last() == ops_by(before, a));
        }
    } else {
        lemma_sharing_beginning(events, n);
        lemma_traces_agree(before);
        let ops = all_ops(before);
        assert(all_ops(events) == ops.push(event.op));
        law_word_tells_the_only_holder(ops);
        lemma_extension(ops, event.op);
        law_word_tells_the_only_holder(all_ops(events));
        let own = ops_by(before, event.who);
        assert(own.push(event.op).drop_last() == own);
        assert(ops_by(events, event.who) == own.push(event.op));
        assert forall|a: int| a != event.who implies #[trigger] ops_by(events, a) == ops_by(
            before,
            a,
        ) by {}
        if holders(all_ops(events)) == 1 && !acquires(event.op) {
            let a = choose|a: int| holds(#[trigger] ops_by(before, a));
            assert(holds(ops_by(events, a)));
        }
    }
}

/// Callers who give the lock up only where their own trace shows them as the holder pair each
/// unlock with an acquisition: together they make a history of the lock. At any time at most one
/// caller's trace shows the lock held, and one does if and only if the lock has a holder.
pub proof fn law_callers_make_a_history(events: Seq<Event>)
    requires
        is_sharing(events),
    ensures
        is_history(all_ops(events)),
        forall|a: int, b: int|
            holds(#[trigger] ops_by(events, a)) && holds(#[trigger] ops_by(events, b)) ==> a == b,
        holders(all_ops(events)) == 1 <==> exists|a: int| holds(#[trigger] ops_by(events, a)),
{
    lemma_traces_agree(events);
}

/// A caller who takes the lock has it as long as nobody unlocks it.
proof fn lemma_taker_holds(events: Seq<Event>, taken: int, n: int)
    requires
        0 <= taken < n <= events.len(),
        acquires(events[taken].op),
        forall|k: int| taken < k < n ==> !releases((#[trigger] events[k]).op),
    ensures
        holds(ops_by(events.take(n), events[taken].who)),
    decreases n,
{
    let before = events.take(n - 1);
    let who = events[taken].who;
    assert(events.take(n).drop_last() == before);
    let own = ops_by(before, who);
    assert(own.push(events[n - 1].op).drop_last() == own);
    if taken < n - 1 {
        lemma_taker_holds(events, taken, n - 1);
    }
}

/// The first unlock after position `from`.
proof fn lemma_first_release(events: Seq<Event>, from: int, to: int) -> (k: int)
    requires
        0 <= from < to < events.len(),
        releases(events[to].op),
    ensures
        from < k <= to,
        releases(events[k].op),
        forall|j: int| from < j < k ==> !releases((#[trigger] events[j]).op),
    decreases to - from,
{
    if releases(events[from + 1].op) {
        from + 1
    } else {
        lemma_first_release(events, from + 1, to)
    }
}

/// The lock changes hands only by its holder's own doing: between two operations that take the
/// lock, the caller who took it first has given it up, before anybody else did.
pub proof fn law_holder_gives_the_lock_up(events: Seq<Event>, first: int, second: int) -> (k: int)
    requires
        is_sharing(events),
        0 <= first < second < events.len(),
        acquires(events[first].op),
        acquires(events[second].op),
    ensures
        first < k < second,
        releases(events[k].op),
        events[k].who == events[first].who,
        forall|j: int| first < j < k ==> !releases((#[trigger] events[j]).op),
{
    let ops = all_ops(events);
    lemma_traces_agree(events);
    law_mutual_exclusion(ops, first, second);
    let release = choose|k: int| first < k < second && releases(#[trigger] ops[k]);
    let k = lemma_first_release(events, first, release);
    lemma_taker_holds(events, first, k);
    lemma_sharing_beginning(events, k);
    lemma_traces_agree(events.take(k));
    k
}

/// For callers who share a lock, it is free when it has just been created, and right after every
/// unlock.
pub proof fn law_shared_lock_is_free_at_first_and_after_unlock(events: Seq<Event>, n: int)
    requires
        is_sharing(events),
        0 < n <= events.len(),
        n == 1 || releases(events[n - 1].op),
    ensures
        holders(all_ops(events.take(n))) == 0,
{
    lemma_traces_agree(events);
    law_lock_is_free_at_first_and_after_unlock(all_ops(events), n);
    assert(all_ops(events.take(n)) == all_ops(events).take(n));
}

/// Callers wait for a lock that is free after the first `free` events, be it just created or
/// unlocked, and that nobody unlocks later, and nobody else joins in. As soon as an attempt has
/// ended, exactly one of the waiting calls has come to its end with the lock, any one of them, the
/// others go on waiting, and the lock is held.
///
/// Each waiting caller `who` has performed `earlier(who)` before its call and goes through
/// `attempts(who)` in it.
pub proof fn law_one_waiting_call_gets_the_lock(
    events: Seq<Event>,
    free: int,
    waiting: Set<int>,
    earlier: spec_fn(int) -> Seq<Op>,
    attempts: spec_fn(int) -> Seq<Attempt>,
) -> (winner: int)
    requires
        is_sharing(events),
        0 < free <= events.len(),
        holders(all_ops(events.take(free))) == 0,
        forall|k: int|
            free <= k < events.len() ==> !releases((#[trigger] events[k]).op) && waiting.contains(
                events[k].who,
            ),
        forall|who: int| #[trigger]
            waiting.contains(who) ==> {
                &&& !holds(earlier(who))
                &&& only_last_may_win(attempts(who))
                &&& ops_by(events, who) == earlier(who) + ops_of(attempts(who))
            },
        attempt_ended_since(all_ops(events), free),
    ensures
        waiting.contains(winner),
        forall|who: int| #[trigger]
            waiting.contains(who) ==> (attempts(who).last() is Won <==> who == winner),
        forall|who: int| holds(#[trigger] ops_by(events, who)) <==> who == winner,
        holders(all_ops(events)) == 1,
{
    let ops = all_ops(events);
    lemma_traces_agree(events);
    assert(all_ops(events.take(free)) == ops.take(free));
    let taken = law_one_exchange_takes_a_free_lock(ops, free);
    let winner = events[taken].who;
    lemma_taker_holds(events, taken, events.len() as int);
    assert(events.take(events.len() as int) == events);
    assert forall|who: int| #[trigger] waiting.contains(who) implies (attempts(who).last() is Won
        <==> who == winner) by {
        law_waiting_thread_holds_iff_won(earlier(who), attempts(who));
    }
    winner
}

} // verus!
