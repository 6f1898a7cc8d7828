//! What holds of data that is only touched by the lock's holder.
//!
//! Any number of parties work on a lock word and on shared data. A party touches the data only
//! between taking the lock and giving it up. It updates the data in two steps, which other parties
//! may come between: it reads the data, and later writes what it has computed from what it read.
//! It may also give the lock up without a write, as one does who finds under the lock that the
//! data is no longer what a computation started from.
//!
//! That a holder reads the latest data is taken for granted here. It rests on the memory model: an
//! acquire operation that reads what a release operation wrote makes everything before the release
//! visible after the acquire, and whoever takes the lock reads what the last holder wrote when it
//! gave the lock up (`law_acquisition_reads_the_last_release` in [`history`](crate::history)).

use crate::history::{
    acquires, finds_latest, holders, is_history, is_lock_op, law_word_tells_the_only_holder,
    lemma_extension, releases,
};
use crate::raw::UNLOCKED;
use crate::trace::Op;
use vstd::prelude::*;

verus! {

/// Where a party stands.
pub enum Phase<T> {
    /// It does not hold the lock.
    Outside,
    /// It holds the lock.
    Inside,
    /// It holds the lock and has read this from the data.
    HasRead(T),
}

/// The lock, the data and all parties.
#[verifier::reject_recursive_types(T)]
pub struct State<T> {
    /// What has been done to the lock word.
    pub ops: Seq<Op>,
    /// Where each party stands.
    pub phases: spec_fn(int) -> Phase<T>,
    /// The shared data.
    pub data: T,
    /// The updates that have been written, in order.
    pub updates: Seq<spec_fn(T) -> T>,
}

/// What a party does in one step.
#[verifier::reject_recursive_types(T)]
pub enum Step<T> {
    /// It performs an operation on the lock word.
    Word(Op),
    /// It reads the data.
    Read,
    /// It writes what this update makes of what it has read.
    Write(spec_fn(T) -> T),
}

/// The phases after party `who` has come to `phase`.
pub open spec fn moved<T>(phases: spec_fn(int) -> Phase<T>, who: int, phase: Phase<T>) -> spec_fn(
    int,
) -> Phase<T> {
    |party: int|
        if party == who {
            phase
        } else {
            phases(party)
        }
}

/// The lock has just been created, the data is `data`, and nobody has done anything.
pub open spec fn is_start<T>(state: State<T>, data: T) -> bool {
    &&& state.ops == seq![Op::Init { value: UNLOCKED }]
    &&& forall|party: int| #[trigger] (state.phases)(party) is Outside
    &&& state.data == data
    &&& state.updates == Seq::<spec_fn(T) -> T>::empty()
}

/// Party `who` takes `step`, which leads from `state` to `next`.
pub open spec fn takes_step<T>(state: State<T>, next: State<T>, who: int, step: Step<T>) -> bool {
    match step {
        Step::Word(op) => {
            &&& is_lock_op(op)
            &&& finds_latest(state.ops, op)
            &&& next.ops == state.ops.push(op)
            &&& next.data == state.data
            &&& next.updates == state.updates
            &&& if acquires(op) {
                &&& (state.phases)(who) is Outside
                &&& next.phases == moved(state.phases, who, Phase::Inside)
            } else if releases(op) {
                &&& !((state.phases)(who) is Outside)
                &&& next.phases == moved(state.phases, who, Phase::Outside)
            } else {
                next.phases == state.phases
            }
        },
        Step::Read => {
            &&& !((state.phases)(who) is Outside)
            &&& next == State { phases: moved(state.phases, who, Phase::HasRead(state.data)), ..state }
        },
        Step::Write(update) => {
            &&& (state.phases)(who) is HasRead
            &&& next == State {
                phases: moved(state.phases, who, Phase::Inside),
                data: update((state.phases)(who)->HasRead_0),
                updates: state.updates.push(update),
                ..state
            }
        },
    }
}

/// Some party takes some step that leads from `state` to `next`.
pub open spec fn follows<T>(state: State<T>, next: State<T>) -> bool {
    exists|who: int, step: Step<T>| takes_step(state, next, who, step)
}

/// The states that the parties go through, one step at a time, from the creation of the lock.
pub open spec fn is_run<T>(run: Seq<State<T>>, data: T) -> bool {
    &&& run.len() > 0
    &&& is_start(run[0], data)
    &&& forall|i: int| 0 < i < run.len() ==> follows(run[i - 1], #[trigger] run[i])
}

/// What `updates` make of `data`, one update after the other.
pub open spec fn updated<T>(data: T, updates: Seq<spec_fn(T) -> T>) -> T
    decreases updates.len(),
{
    if updates.len() == 0 {
        data
    } else {
        updates.last()(updated(data, updates.drop_last()))
    }
}

/// What every state of a run keeps.
spec fn keeps<T>(state: State<T>, data: T) -> bool {
    &&& is_history(state.ops)
    &&& forall|a: int, b: int|
        !(#[trigger] (state.phases)(a) is Outside) && !(#[trigger] (state.phases)(b) is Outside)
            ==> a == b
    &&& forall|a: int| !(#[trigger] (state.phases)(a) is Outside) ==> holders(state.ops) == 1
    &&& holders(state.ops) == 1 ==> exists|a: int| !(#[trigger] (state.phases)(a) is Outside)
    &&& forall|a: int|
        #[trigger] (state.phases)(a) is HasRead ==> (state.phases)(a)->HasRead_0 == state.data
    &&& state.data == updated(data, state.updates)
}

/// A step keeps what every state of a run keeps.
proof fn lemma_step_keeps<T>(
    state: State<T>,
    next: State<T>,
    who: int,
    step: Step<T>,
    data: T,
)
    requires
        keeps(state, data),
        takes_step(state, next, who, step),
    ensures
        keeps(next, data),
{
    if let Step::Word(op) = step {
        lemma_extension(state.ops, op);
        law_word_tells_the_only_holder(state.ops);
        law_word_tells_the_only_holder(next.ops);
        if acquires(op) {
            assert(!((next.phases)(who) is Outside));
        }
    }
    if let Step::Write(update) = step {
        assert(next.updates.drop_last() == state.updates);
    }
}

/// Every state of a run keeps it.
proof fn lemma_run_keeps<T>(run: Seq<State<T>>, data: T, i: int)
    requires
        is_run(run, data),
        0 <= i < run.len(),
    ensures
        keeps(run[i], data),
    decreases i,
{
    if i == 0 {
        let ops = run[0].ops;
        assert(holders(ops.drop_last()) == 0);
    } else {
        lemma_run_keeps(run, data, i - 1);
        let state = run[i - 1];
        let next = run[i];
        let (who, step) = choose|who: int, step: Step<T>| takes_step(state, next, who, step);
        lemma_step_keeps(state, next, who, step, data);
    }
}

/// At no time are two parties between taking the lock and giving it up.
pub proof fn law_one_party_inside<T>(
    run: Seq<State<T>>,
    data: T,
    i: int,
    a: int,
    b: int,
)
    requires
        is_run(run, data),
        0 <= i < run.len(),
        !((run[i].phases)(a) is Outside),
        !((run[i].phases)(b) is Outside),
    ensures
        a == b,
{
    lemma_run_keeps(run, data, i);
}

/// No update is lost: at any time the data is what the updates written so far give when they are
/// made one after the other.
pub proof fn law_no_update_is_lost<T>(run: Seq<State<T>>, data: T, i: int)
    requires
        is_run(run, data),
        0 <= i < run.len(),
    ensures
        run[i].data == updated(data, run[i].updates),
{
    lemma_run_keeps(run, data, i);
}

} // verus!
