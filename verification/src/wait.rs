//! What a call that has to wait holds, and how it decides to go on waiting.

use vstd::prelude::*;

verus! {

/// Held by a call that has registered a slot and now waits to be served.
#[derive(Debug, PartialEq, Eq, Clone, Copy)]
pub struct Waiter {
    /// The ticket of the slot that the call registered.
    pub ticket: u64,
    /// The instant after which the call gives up, if it has one.
    pub deadline: Option<u64>,
}

/// How a call that may have to wait has begun.
#[derive(Debug, PartialEq, Eq)]
pub enum Step<R> {
    /// The call is over, with this result.
    Done(R),
    /// The call has registered a slot and must wait.
    Blocked(Waiter),
}

/// How a call that waited goes on after a look at the channel.
#[derive(Debug, PartialEq, Eq)]
pub enum Resume<R> {
    /// The call is over, with this result.
    Done(R),
    /// The call still waits: sleep until woken, at most for the given time
    /// where there is one.
    Park(Option<u64>),
}

/// What a waiting call does next.
#[derive(Debug, PartialEq, Eq, Clone, Copy)]
pub enum Wait {
    /// A peer has completed the transfer.
    Ready,
    /// The channel is closed or the deadline has passed: give up.
    Cancel,
    /// Sleep until woken, at most for the given time where there is one.
    Park(Option<u64>),
}

/// The decision of the wait loop: readiness first, then closure, then the
/// deadline; otherwise sleep for what is left of the time.
pub open spec fn decide(ready: bool, closed: bool, deadline: Option<u64>, now: u64) -> Wait {
    if ready {
        Wait::Ready
    } else if closed {
        Wait::Cancel
    } else {
        match deadline {
            Some(end) => if now >= end {
                Wait::Cancel
            } else {
                Wait::Park(Some((end - now) as u64))
            },
            None => Wait::Park(None),
        }
    }
}

/// Computes [`decide`].
pub fn wait_step(ready: bool, closed: bool, deadline: Option<u64>, now: u64) -> (next: Wait)
    ensures
        next == decide(ready, closed, deadline, now),
{
    if ready {
        Wait::Ready
    } else if closed {
        Wait::Cancel
    } else {
        match deadline {
            Some(end) => {
                if now >= end {
                    Wait::Cancel
                } else {
                    Wait::Park(Some(end - now))
                }
            },
            None => Wait::Park(None),
        }
    }
}

/// A waiting call keeps to its deadline. It gives up only on a closed
/// channel or once the deadline has come, it never sleeps past the
/// deadline, and without a deadline it gives up only on a closed channel.
pub proof fn lemma_wait_keeps_deadline(ready: bool, closed: bool, deadline: Option<u64>, now: u64)
    ensures
        decide(ready, closed, deadline, now) is Ready <==> ready,
        decide(ready, closed, deadline, now) is Cancel <==> !ready && (closed || (deadline is Some
            && now >= deadline->0)),
        decide(ready, closed, deadline, now) is Park ==> match decide(
            ready,
            closed,
            deadline,
            now,
        )->Park_0 {
            Some(nap) => deadline is Some && nap > 0 && now + nap == deadline->0,
            None => deadline is None,
        },
{
}

} // verus!
