//! The lock that keeps two backup (or two sync) runs from interleaving.
//!
//! The lock is a marker file that a run creates exclusively before it starts
//! and removes when it ends; creating it fails while another run holds it. A
//! run that finds the lock held waits and tries again.

use vstd::prelude::*;

verus! {

/// One step of two or more runs competing for the lock; runs are told apart
/// by a number.
#[derive(Clone, Copy, Debug, PartialEq, Eq, Structural)]
pub enum LockEvent {
    /// The run tries to create the marker exclusively.
    Acquire(u64),
    /// The run removes the marker it holds.
    Release(u64),
}

/// Which run holds the lock after `trace`.
pub open spec fn holder(trace: Seq<LockEvent>) -> Option<u64>
    decreases trace.len(),
{
    if trace.len() == 0 {
        None
    } else {
        let h = holder(trace.drop_last());
        match trace.last() {
            LockEvent::Acquire(o) => if h is None { Some(o) } else { h },
            LockEvent::Release(o) => if h == Some(o) { None } else { h },
        }
    }
}

/// The `i`-th step of `trace` is an acquisition that succeeded.
pub open spec fn acquired_at(trace: Seq<LockEvent>, i: int) -> bool {
    &&& 0 <= i < trace.len()
    &&& trace[i] is Acquire
    &&& holder(trace.subrange(0, i)) is None
}

/// What a run that wants the lock does next.
#[derive(Clone, Copy, Debug, PartialEq, Eq, Structural)]
pub enum LockAction {
    /// It created the marker: it proceeds, and must remove the marker on
    /// every way out.
    Enter,
    /// Another run holds the lock: it sleeps and tries again.
    Wait,
    /// It has waited as long as its caller allows.
    GiveUp,
}

/// The next action of a run whose exclusive creation of the marker
/// succeeded (`created`) or found it held, after `waited` seconds of waiting,
/// with an optional bound on the wait.
pub fn lock_action(created: bool, waited: u64, bound: Option<u64>) -> (r: LockAction)
    ensures
        created ==> r == LockAction::Enter,
        !created ==> (r == LockAction::GiveUp <==> (bound matches Some(b) && waited >= b)),
        !created ==> r != LockAction::Enter,
{
    if created {
        LockAction::Enter
    } else {
        match bound {
            Some(b) => if waited >= b { LockAction::GiveUp } else { LockAction::Wait },
            None => LockAction::Wait,
        }
    }
}

proof fn lemma_holder_until(trace: Seq<LockEvent>, i: int, a: u64, j: int)
    requires
        acquired_at(trace, i),
        trace[i] == LockEvent::Acquire(a),
        i < j <= trace.len(),
        forall|k: int| i < k < j ==> trace[k] != LockEvent::Release(a),
    ensures
        holder(trace.subrange(0, j)) == Some(a),
    decreases j - i,
{
    assert(trace.subrange(0, j).drop_last() =~= trace.subrange(0, j - 1));
    assert(trace.subrange(0, j).last() == trace[j - 1]);
    if j - 1 > i {
        lemma_holder_until(trace, i, a, j - 1);
    }
}

/// Once a run has acquired the lock, no other run acquires it until that
/// run releases it: two runs never hold it at once.
pub proof fn lemma_lock_exclusive(trace: Seq<LockEvent>, i: int, j: int, a: u64, b: u64)
    requires
        acquired_at(trace, i),
        trace[i] == LockEvent::Acquire(a),
        i < j < trace.len(),
        trace[j] == LockEvent::Acquire(b),
        forall|k: int| i < k < j ==> trace[k] != LockEvent::Release(a),
    ensures
        !acquired_at(trace, j),
        holder(trace.subrange(0, j + 1)) == Some(a),
{
    lemma_holder_until(trace, i, a, j);
    lemma_holder_until(trace, i, a, j + 1);
}

} // verus!
