//! The operations on lock words, and the record of those a caller has performed.
//!
//! What an atomic operation finds depends on what other threads do, so no contract can foretell
//! it. The contracts of the lock say instead which operations a call performs, on which word, in
//! which order, and how its result follows from what they found. They say it over a [`Trace`].

use crate::history::holds;
use std::sync::atomic::{AtomicU32, Ordering};
use vstd::prelude::*;

verus! {

/// An atomic operation on a lock word, with the value that it found or wrote.
pub enum Op {
    /// The word was created and holds `value`.
    Init { value: u32 },
    /// A load with relaxed ordering found `value`.
    LoadRelaxed { value: u32 },
    /// An exchange with acquire ordering found `found` and wrote `new`.
    SwapAcquire { found: u32, new: u32 },
    /// A store with release ordering wrote `value`.
    StoreRelease { value: u32 },
}

/// An operation together with the word it was performed on.
pub struct Access {
    pub flag: AtomicU32,
    pub op: Op,
}

/// `op`, performed on `flag`.
pub open spec fn access(flag: AtomicU32, op: Op) -> Access {
    Access { flag, op }
}

/// All of `ops`, performed on `flag`.
pub open spec fn accesses(flag: AtomicU32, ops: Seq<Op>) -> Seq<Access> {
    ops.map_values(|op: Op| access(flag, op))
}

/// The latest operation of a trace.
pub open spec fn last_op(log: Seq<Access>) -> Op
    recommends
        log.len() > 0,
{
    log.last().op
}

/// The operations of a trace that were performed on `flag`, in order.
pub open spec fn ops_on(log: Seq<Access>, flag: AtomicU32) -> Seq<Op>
    decreases log.len(),
{
    if log.len() == 0 {
        Seq::empty()
    } else if log.last().flag == flag {
        ops_on(log.drop_last(), flag).push(log.last().op)
    } else {
        ops_on(log.drop_last(), flag)
    }
}

/// A further operation is one on its own word and on no other.
pub proof fn lemma_ops_on_push(log: Seq<Access>, flag: AtomicU32, op: Op, other: AtomicU32)
    ensures
        ops_on(log.push(access(flag, op)), other) == if flag == other {
            ops_on(log, other).push(op)
        } else {
            ops_on(log, other)
        },
{
    assert(log.push(access(flag, op)).drop_last() == log);
}

/// On a word that a trace does not speak of, it holds no operations.
pub proof fn lemma_ops_on_new_word(log: Seq<Access>, flag: AtomicU32)
    requires
        forall|i: int| 0 <= i < log.len() ==> (#[trigger] log[i]).flag != flag,
    ensures
        ops_on(log, flag) == Seq::<Op>::empty(),
    decreases log.len(),
{
    if log.len() > 0 {
        lemma_ops_on_new_word(log.drop_last(), flag);
    }
}

/// Further operations are operations on their own word and on no other.
pub proof fn lemma_ops_on_accesses(
    log: Seq<Access>,
    flag: AtomicU32,
    ops: Seq<Op>,
    other: AtomicU32,
)
    ensures
        ops_on(log + accesses(flag, ops), other) == if flag == other {
            ops_on(log, other) + ops
        } else {
            ops_on(log, other)
        },
    decreases ops.len(),
{
    if ops.len() > 0 {
        let before = ops.drop_last();
        lemma_ops_on_accesses(log, flag, before, other);
        assert(log + accesses(flag, ops) == (log + accesses(flag, before)).push(
            access(flag, ops.last()),
        ));
        lemma_ops_on_push(log + accesses(flag, before), flag, ops.last(), other);
    }
}

/// The operations on lock words that a caller has performed, in program order.
///
/// A trace holds nothing at run time. Only this module can lengthen one, by the four functions
/// below that perform the operations: [`create`](Self::create), and those of [`Caller`]. What they
/// say of themselves is not proved: that each entry is of an operation that took place on that
/// word, with that ordering, and found or wrote those values.
pub struct Trace {
    log: Ghost<Seq<Access>>,
}

impl View for Trace {
    type V = Seq<Access>;

    closed spec fn view(&self) -> Seq<Access> {
        self.log@
    }
}

impl Trace {
    /// A trace of no operations.
    pub fn new() -> (trace: Self)
        ensures
            trace@ == Seq::<Access>::empty(),
        opens_invariants none
        no_unwind
    {
        Trace { log: Ghost(Seq::empty()) }
    }

    /// Goes on with this trace at the lock word `flag`.
    ///
    /// Going to a word does nothing to it. Every operation on a word may open an invariant, be it
    /// one of those that [`Caller`] records or a direct call on the `AtomicU32`; this function
    /// opens none, so it performs none.
    pub fn on<'a>(self, flag: &'a AtomicU32) -> (caller: Caller<'a>)
        ensures
            caller@ == self@,
            caller.word() == *flag,
        opens_invariants none
        no_unwind
    {
        Caller { flag, log: self.log }
    }

    /// Creates a word that holds `value`, by `AtomicU32::new`. Trusted: the call makes a new word,
    /// none of those that the trace speaks of already, and the trace records that it was created
    /// with `value`. The call opens no invariant and does not unwind.
    #[verifier::external_body]
    pub(crate) fn create(&mut self, value: u32) -> (flag: AtomicU32)
        ensures
            final(self)@ == old(self)@.push(Access { flag, op: Op::Init { value } }),
            forall|i: int| 0 <= i < old(self)@.len() ==> (#[trigger] old(self)@[i]).flag != flag,
        opens_invariants none
        no_unwind
    {
        AtomicU32::new(value)
    }
}

/// A caller at a lock word: the only way to the word that the lock's own functions have.
///
/// A function that is given a caller and nothing else cannot touch the word unrecorded. It has no
/// reference to the word, so it can neither call the `AtomicU32` nor open a second trace on it; all
/// that it can do is perform the operations below, and each of them lengthens this caller's trace.
pub struct Caller<'a> {
    flag: &'a AtomicU32,
    log: Ghost<Seq<Access>>,
}

impl<'a> View for Caller<'a> {
    type V = Seq<Access>;

    closed spec fn view(&self) -> Seq<Access> {
        self.log@
    }
}

impl<'a> Caller<'a> {
    /// The lock word.
    pub closed spec fn word(&self) -> AtomicU32 {
        *self.flag
    }

    /// What the caller's trace tells of the lock word.
    pub open spec fn ops(&self) -> Seq<Op> {
        ops_on(self@, self.word())
    }

    /// Leaves the lock word with the trace. Like going there by [`Trace::on`], leaving a word opens
    /// no invariant, so it performs no operation on the word.
    pub fn into_trace(self) -> (trace: Trace)
        ensures
            trace@ == self@,
        opens_invariants none
        no_unwind
    {
        Trace { log: self.log }
    }

    /// Loads the word by `AtomicU32::load` with relaxed ordering. Trusted: the trace records that
    /// the load took place and that it found the value which it returns. What that value is
    /// depends on the other threads and is left open. The call does not unwind.
    #[verifier::external_body]
    pub(crate) fn load_relaxed(&mut self) -> (value: u32)
        ensures
            final(self).word() == old(self).word(),
            final(self)@ == old(self)@.push(
                Access { flag: old(self).word(), op: Op::LoadRelaxed { value } },
            ),
        no_unwind
    {
        self.flag.load(Ordering::Relaxed)
    }

    /// Exchanges the word for `new` by `AtomicU32::swap` with acquire ordering. Trusted: the trace
    /// records that the exchange took place, that it wrote `new` and that it found the value which
    /// it returns. What that value is depends on the other threads and is left open. The call does
    /// not unwind.
    #[verifier::external_body]
    pub(crate) fn swap_acquire(&mut self, new: u32) -> (found: u32)
        ensures
            final(self).word() == old(self).word(),
            final(self)@ == old(self)@.push(
                Access { flag: old(self).word(), op: Op::SwapAcquire { found, new } },
            ),
        no_unwind
    {
        self.flag.swap(new, Ordering::Acquire)
    }

    /// Stores `value` in the word by `AtomicU32::store` with release ordering, which only the
    /// holder of the lock may do. Trusted: the trace records that the store took place and that it
    /// wrote `value`. The call does not unwind.
    #[verifier::external_body]
    pub(crate) fn store_release(&mut self, value: u32)
        requires
            holds(old(self).ops()),
        ensures
            final(self).word() == old(self).word(),
            final(self)@ == old(self)@.push(
                Access { flag: old(self).word(), op: Op::StoreRelease { value } },
            ),
        no_unwind
    {
        self.flag.store(value, Ordering::Release)
    }
}

} // verus!
