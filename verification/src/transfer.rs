//! The fate of each call that waits: it keeps what it came with until a
//! peer serves it or it gives up, and it ends accordingly.

use vstd::prelude::*;
use vstd::multiset::Multiset;
use crate::errors::{RecvTimeoutError, SendTimeoutError, TrySendError};
use crate::history::Op;
use crate::wait::{Resume, Waiter};
use crate::model::{holds, position, State};
use crate::wellformed::{lemma_only_position, lemma_position, lemma_remove_keeps, lemma_step_wf};

verus! {

/// A send that has to wait is registered with the value that it brought.
pub proof fn lemma_blocked_send_waits<T>(s: State<T>, value: T, deadline: Option<u64>)
    requires
        s.wf(),
        s.issued < u64::MAX,
        s.send_until(value, deadline).1 is Blocked,
    ensures
        !s.closed && s.receivers.len() == 0,
        s.send_until(value, deadline).0.waits_with(
            s.send_until(value, deadline).1->Blocked_0.ticket,
            value,
        ),
{
    let n = s.send_until(value, deadline).0;
    assert(n.senders[s.senders.len() as int].ticket == s.issued as u64);
}

/// The fate of a waiting send, one operation at a time. Whatever another
/// call does, the send either still waits with its value, or its value has
/// gone to the one receiver whose operation this was.
pub proof fn lemma_waiting_send_step<T>(s: State<T>, op: Op<T>, ticket: u64, value: T)
    requires
        s.wf(),
        s.waits_with(ticket, value),
        op.enabled(s),
        op != Op::<T>::SendFinish(ticket),
    ensures
        op.next(s).waits_with(ticket, value) || (op.next(s).relieved(ticket) && op.received(s)
            == Multiset::singleton(value)),
{
    let n = op.next(s);
    lemma_step_wf(s, op);
    if exists|i: int|
        0 <= i < s.senders.len() && (#[trigger] s.senders[i]).ticket == ticket && s.senders[i].cell
            == Some(value) {
        let i = choose|i: int|
            0 <= i < s.senders.len() && (#[trigger] s.senders[i]).ticket == ticket
                && s.senders[i].cell == Some(value);
        lemma_position(s.senders, ticket, i);
        match op {
            Op::TryRecv => {
                lemma_relieved_or_waiting(s, ticket, value, i);
            },
            Op::RecvUntil(_) => {
                lemma_relieved_or_waiting(s, ticket, value, i);
            },
            Op::SendFinish(other) => {
                if holds(s.detached, other) {
                    assert(n.senders[i] == s.senders[i]);
                } else {
                    let k = position(s.senders, other);
                    assert(k != i);
                    if i < k {
                        assert(n.senders[i] == s.senders[i]);
                    } else {
                        assert(n.senders[i - 1] == s.senders[i]);
                    }
                }
            },
            Op::Close => {
                let at = s.detached.len() + i;
                assert(n.detached[at] == s.senders[i]);
                assert(s.senders[i].queued() && s.senders[i].side is Sender);
            },
            _ => {
                assert(s.receivers.len() == 0);
                assert(n.senders[i] == s.senders[i]);
            },
        }
    } else {
        let i = choose|i: int|
            0 <= i < s.detached.len() && (#[trigger] s.detached[i]).ticket == ticket
                && s.detached[i].side is Sender && !s.detached[i].ready && s.detached[i].cell
                == Some(value);
        lemma_position(s.detached, ticket, i);
        assert(s.closed);
        match op {
            Op::SendFinish(other) => {
                lemma_detached_survives(s, other, i);
            },
            Op::RecvFinish(other) => {
                lemma_detached_survives(s, other, i);
            },
            _ => {
                assert(n.detached[i] == s.detached[i]);
            },
        }
    }
}

/// A send that still waits when it ends fails, and its error carries the
/// value that it brought: `Disconnected` on a closed channel, `Timeout` on
/// an open one.
pub proof fn lemma_waiting_send_ends<T>(s: State<T>, ticket: u64, value: T)
    requires
        s.wf(),
        s.waits_with(ticket, value),
    ensures
        s.sending(ticket),
        s.send_finish(ticket).1 == Err::<(), _>(s.send_refusal(value)),
{
    if exists|i: int|
        0 <= i < s.senders.len() && (#[trigger] s.senders[i]).ticket == ticket && s.senders[i].cell
            == Some(value) {
        let i = choose|i: int|
            0 <= i < s.senders.len() && (#[trigger] s.senders[i]).ticket == ticket
                && s.senders[i].cell == Some(value);
        lemma_position(s.senders, ticket, i);
        assert(!holds(s.detached, ticket));
    } else {
        let i = choose|i: int|
            0 <= i < s.detached.len() && (#[trigger] s.detached[i]).ticket == ticket
                && s.detached[i].side is Sender && !s.detached[i].ready && s.detached[i].cell
                == Some(value);
        lemma_position(s.detached, ticket, i);
    }
}

/// A send that was relieved of its value stays so whatever other calls do,
/// and succeeds when it ends.
pub proof fn lemma_relieved_send<T>(s: State<T>, op: Op<T>, ticket: u64)
    requires
        s.wf(),
        s.relieved(ticket),
        op.enabled(s),
    ensures
        s.sending(ticket),
        s.ready(ticket),
        s.send_finish(ticket).1 == Ok::<(), SendTimeoutError<T>>(()),
        op != Op::<T>::SendFinish(ticket) ==> op.next(s).relieved(ticket),
{
    let i = choose|i: int|
        0 <= i < s.detached.len() && (#[trigger] s.detached[i]).ticket == ticket
            && s.detached[i].side is Sender && s.detached[i].ready;
    lemma_position(s.detached, ticket, i);
    lemma_only_position(s.detached, ticket);
    if op != Op::<T>::SendFinish(ticket) {
        assert(!s.receiving(ticket));
        lemma_detached_outlives(s, op, i);
    }
}

/// A receive that has to wait is registered.
pub proof fn lemma_blocked_receive_waits<T>(s: State<T>, deadline: Option<u64>)
    requires
        s.wf(),
        s.issued < u64::MAX,
        s.recv_until(deadline).1 is Blocked,
    ensures
        !s.closed && s.senders.len() == 0,
        s.recv_until(deadline).0.awaits(s.recv_until(deadline).1->Blocked_0.ticket),
{
    let n = s.recv_until(deadline).0;
    assert(n.receivers[s.receivers.len() as int].ticket == s.issued as u64);
}

/// The fate of a waiting receive, one operation at a time. Whatever
/// another call does, the receive either still waits, or its slot has been
/// filled with the value that this operation brought.
pub proof fn lemma_waiting_receive_step<T>(s: State<T>, op: Op<T>, ticket: u64)
    requires
        s.wf(),
        s.awaits(ticket),
        op.enabled(s),
        op != Op::<T>::RecvFinish(ticket),
    ensures
        op.next(s).awaits(ticket) || (op.brings() matches Some(value) && op.next(s).filled_with(
            ticket,
            value,
        )),
{
    let n = op.next(s);
    if holds(s.receivers, ticket) {
        let i = position(s.receivers, ticket);
        assert(s.senders.len() == 0);
        match op {
            Op::TrySend(value) => {
                lemma_filled_or_waiting(s, ticket, value, i);
            },
            Op::SendUntil(value, _) => {
                lemma_filled_or_waiting(s, ticket, value, i);
            },
            Op::RecvFinish(other) => {
                if holds(s.detached, other) {
                    assert(n.receivers[i] == s.receivers[i]);
                } else {
                    let k = position(s.receivers, other);
                    assert(k != i);
                    if i < k {
                        assert(n.receivers[i] == s.receivers[i]);
                    } else {
                        assert(n.receivers[i - 1] == s.receivers[i]);
                    }
                }
            },
            Op::Close => {
                let at = s.detached.len() + s.senders.len() + i;
                assert(n.detached[at] == s.receivers[i]);
                assert(s.receivers[i].queued() && s.receivers[i].side is Receiver);
            },
            _ => {
                assert(n.receivers[i] == s.receivers[i]);
            },
        }
    } else {
        let i = choose|i: int|
            0 <= i < s.detached.len() && (#[trigger] s.detached[i]).ticket == ticket
                && s.detached[i].side is Receiver && !s.detached[i].ready;
        lemma_position(s.detached, ticket, i);
        lemma_only_position(s.detached, ticket);
        assert(!s.sending(ticket));
        lemma_detached_outlives(s, op, i);
    }
}

/// A receive that still waits when it ends fails: with `Disconnected` on a
/// closed channel, with `Timeout` on an open one.
pub proof fn lemma_waiting_receive_ends<T>(s: State<T>, ticket: u64)
    requires
        s.wf(),
        s.awaits(ticket),
    ensures
        s.receiving(ticket),
        s.recv_finish(ticket).1 == Err::<T, _>(s.recv_refusal()),
{
    if holds(s.receivers, ticket) {
        let i = position(s.receivers, ticket);
        assert(!holds(s.detached, ticket));
    } else {
        let i = choose|i: int|
            0 <= i < s.detached.len() && (#[trigger] s.detached[i]).ticket == ticket
                && s.detached[i].side is Receiver && !s.detached[i].ready;
        lemma_position(s.detached, ticket, i);
    }
}

/// A send that finds a receiver waiting fills the slot of the oldest one.
pub proof fn lemma_paired_send_fills<T>(s: State<T>, value: T)
    requires
        s.wf(),
        !s.closed,
        s.receivers.len() > 0,
    ensures
        s.try_send(value) == (s.hand_over(value), Ok::<(), TrySendError<T>>(())),
        s.hand_over(value).filled_with(s.receivers[0].ticket, value),
{
    let n = s.hand_over(value);
    assert(n.detached[s.detached.len() as int].ticket == s.receivers[0].ticket);
    assert(s.receivers[0].side is Receiver);
}

/// A receive whose slot was filled keeps its value whatever other calls
/// do, and returns that value when it ends.
pub proof fn lemma_filled_receive<T>(s: State<T>, op: Op<T>, ticket: u64, value: T)
    requires
        s.wf(),
        s.filled_with(ticket, value),
        op.enabled(s),
    ensures
        s.receiving(ticket),
        s.ready(ticket),
        s.recv_finish(ticket).1 == Ok::<T, RecvTimeoutError>(value),
        op != Op::<T>::RecvFinish(ticket) ==> op.next(s).filled_with(ticket, value),
{
    let i = choose|i: int|
        0 <= i < s.detached.len() && (#[trigger] s.detached[i]).ticket == ticket
            && s.detached[i].side is Receiver && s.detached[i].ready && s.detached[i].cell == Some(
            value,
        );
    lemma_position(s.detached, ticket, i);
    lemma_only_position(s.detached, ticket);
    if op != Op::<T>::RecvFinish(ticket) {
        assert(!s.sending(ticket));
        lemma_detached_outlives(s, op, i);
    }
}

/// When the oldest waiting sender is relieved, the sender at index `i`
/// either was that one, or still waits.
proof fn lemma_relieved_or_waiting<T>(s: State<T>, ticket: u64, value: T, i: int)
    requires
        s.wf(),
        !s.closed,
        0 <= i < s.senders.len(),
        s.senders[i].ticket == ticket,
        s.senders[i].cell == Some(value),
    ensures
        i == 0 ==> s.relieve().relieved(ticket) && s.senders[0].cell->0 == value,
        i > 0 ==> s.relieve().waits_with(ticket, value),
{
    let n = s.relieve();
    if i == 0 {
        assert(n.detached[s.detached.len() as int].ticket == ticket);
        assert(s.senders[0].side is Sender);
    } else {
        assert(n.senders[i - 1] == s.senders[i]);
    }
}

/// When the oldest waiting receiver is given a value, the receiver at
/// index `i` either was that one, or still waits.
proof fn lemma_filled_or_waiting<T>(s: State<T>, ticket: u64, value: T, i: int)
    requires
        s.wf(),
        0 <= i < s.receivers.len(),
        s.receivers[i].ticket == ticket,
    ensures
        i == 0 ==> s.hand_over(value).filled_with(ticket, value),
        i > 0 ==> s.hand_over(value).awaits(ticket),
{
    let n = s.hand_over(value);
    if i == 0 {
        assert(n.detached[s.detached.len() as int].ticket == ticket);
        assert(s.receivers[0].side is Receiver);
    } else {
        assert(n.receivers[i - 1] == s.receivers[i]);
    }
}

/// A detached slot outlives the end of another call.
proof fn lemma_detached_survives<T>(s: State<T>, other: u64, i: int)
    requires
        s.wf(),
        0 <= i < s.detached.len(),
        s.detached[i].ticket != other,
    ensures
        holds(s.detached, other) ==> exists|k: int|
            0 <= k < s.detached.remove(position(s.detached, other)).len()
                && #[trigger] s.detached.remove(position(s.detached, other))[k] == s.detached[i],
{
    if holds(s.detached, other) {
        let k = position(s.detached, other);
        let n = s.detached.remove(k);
        if i < k {
            assert(n[i] == s.detached[i]);
        } else {
            assert(n[i - 1] == s.detached[i]);
        }
    }
}

/// A detached slot stays as it is until its own call ends.
proof fn lemma_detached_outlives<T>(s: State<T>, op: Op<T>, i: int)
    requires
        s.wf(),
        op.enabled(s),
        0 <= i < s.detached.len(),
        op != Op::<T>::SendFinish(s.detached[i].ticket),
        op != Op::<T>::RecvFinish(s.detached[i].ticket),
    ensures
        exists|k: int|
            0 <= k < op.next(s).detached.len() && #[trigger] op.next(s).detached[k] == s.detached[i],
{
    let n = op.next(s);
    match op {
        Op::SendFinish(other) => {
            lemma_detached_survives(s, other, i);
            if holds(s.detached, other) {
                let rest = s.detached.remove(position(s.detached, other));
                let k = choose|k: int| 0 <= k < rest.len() && #[trigger] rest[k] == s.detached[i];
                assert(n.detached[k] == s.detached[i]);
            } else {
                assert(n.detached[i] == s.detached[i]);
            }
        },
        Op::RecvFinish(other) => {
            lemma_detached_survives(s, other, i);
            if holds(s.detached, other) {
                let rest = s.detached.remove(position(s.detached, other));
                let k = choose|k: int| 0 <= k < rest.len() && #[trigger] rest[k] == s.detached[i];
                assert(n.detached[k] == s.detached[i]);
            } else {
                assert(n.detached[i] == s.detached[i]);
            }
        },
        _ => {
            assert(n.detached[i] == s.detached[i]);
        },
    }
}

/// A send that has left its wait queue with its value is not relieved
/// later: a detached slot is never signalled.
pub proof fn lemma_sender_left_unserved<T>(s: State<T>, op: Op<T>, ticket: u64)
    requires
        s.wf(),
        op.enabled(s),
        !holds(s.senders, ticket),
        !s.relieved(ticket),
    ensures
        !op.next(s).relieved(ticket),
{
    let n = op.next(s);
    assert forall|k: int| 0 <= k < n.detached.len() implies !((#[trigger] n.detached[k]).ticket
        == ticket && n.detached[k].side is Sender && n.detached[k].ready) by {
        lemma_detached_step(s, op, k);
    }
}

/// A receive that has left its wait queue unserved is not served later: a
/// detached slot is never signalled.
pub proof fn lemma_receiver_left_unserved<T>(s: State<T>, op: Op<T>, ticket: u64)
    requires
        s.wf(),
        op.enabled(s),
        !holds(s.receivers, ticket),
        !s.filled(ticket),
    ensures
        !op.next(s).filled(ticket),
{
    let n = op.next(s);
    assert forall|k: int| 0 <= k < n.detached.len() implies !((#[trigger] n.detached[k]).ticket
        == ticket && n.detached[k].side is Receiver && n.detached[k].ready) by {
        lemma_detached_step(s, op, k);
    }
}

/// Each detached slot after one operation was detached before as it is,
/// or comes from a wait queue: as it was there if the operation closed the
/// channel, served if the operation paired with it.
pub proof fn lemma_detached_step<T>(s: State<T>, op: Op<T>, k: int)
    requires
        s.wf(),
        op.enabled(s),
        0 <= k < op.next(s).detached.len(),
    ensures
        ({
            let slot = op.next(s).detached[k];
            ||| exists|j: int| 0 <= j < s.detached.len() && #[trigger] s.detached[j] == slot
            ||| exists|j: int|
                0 <= j < s.senders.len() && (#[trigger] s.senders[j]).ticket == slot.ticket
                    && slot.side is Sender
            ||| exists|j: int|
                0 <= j < s.receivers.len() && (#[trigger] s.receivers[j]).ticket == slot.ticket
                    && slot.side is Receiver
        }),
{
    let n = op.next(s);
    match op {
        Op::SendFinish(other) => {
            if holds(s.detached, other) {
                lemma_remove_keeps(s.detached, other, k);
            }
            let k0 = if holds(s.detached, other) && k >= position(s.detached, other) {
                k + 1
            } else {
                k
            };
            assert(n.detached[k] == s.detached[k0]);
        },
        Op::RecvFinish(other) => {
            if holds(s.detached, other) {
                lemma_remove_keeps(s.detached, other, k);
            }
            let k0 = if holds(s.detached, other) && k >= position(s.detached, other) {
                k + 1
            } else {
                k
            };
            assert(n.detached[k] == s.detached[k0]);
        },
        Op::Close => {
            let a = s.detached.len();
            let b = s.senders.len();
            if k < a {
                assert(n.detached[k] == s.detached[k]);
            } else if k < a + b {
                assert(n.detached[k] == s.senders[k - a]);
            } else {
                assert(n.detached[k] == s.receivers[k - a - b]);
            }
        },
        Op::TakeWakeups => {
            assert(n.detached[k] == s.detached[k]);
        },
        _ => {
            if k < s.detached.len() {
                assert(n.detached[k] == s.detached[k]);
            } else if s.receivers.len() > 0 {
                assert(s.receivers[0].side is Receiver);
            } else if s.senders.len() > 0 {
                assert(s.senders[0].side is Sender);
            }
        },
    }
}

/// A waiting call keeps to its deadline. A send that takes a look ends
/// with `Timeout` only on an open channel whose deadline has come, and
/// gets its value back; it ends with `Disconnected` only on a closed
/// channel; and where it sleeps on, it sleeps no longer than to its
/// deadline. Without a deadline it never ends with `Timeout`.
pub proof fn lemma_send_keeps_deadline<T>(s: State<T>, waiter: Waiter, now: u64)
    requires
        s.wf(),
        s.sending(waiter.ticket),
    ensures
        s.send_resume(waiter, now).1 matches Resume::Done(Err(SendTimeoutError::Timeout(value)))
            ==> !s.closed && waiter.deadline is Some && now >= waiter.deadline->0 && s.waits_with(
            waiter.ticket,
            value,
        ),
        s.send_resume(waiter, now).1 matches Resume::Done(
            Err(SendTimeoutError::Disconnected(value)),
        ) ==> s.closed && s.waits_with(waiter.ticket, value),
        s.send_resume(waiter, now).1 matches Resume::Done(Ok(_)) ==> s.relieved(waiter.ticket),
        s.send_resume(waiter, now).1 matches Resume::Park(nap) ==> s.send_resume(waiter, now).0 == s
            && !s.closed && !s.relieved(waiter.ticket) && match nap {
            Some(nap) => waiter.deadline is Some && nap > 0 && now + nap == waiter.deadline->0,
            None => waiter.deadline is None,
        },
{
    let ticket = waiter.ticket;
    lemma_only_position(s.detached, ticket);
    if holds(s.detached, ticket) {
        let i = position(s.detached, ticket);
        assert(s.detached[i].side is Sender);
        assert(s.detached[i].completed() || s.detached[i].queued());
    } else {
        let i = position(s.senders, ticket);
        assert(s.senders[i].queued() && s.senders[i].side is Sender);
    }
}

/// A waiting call keeps to its deadline. A receive that takes a look ends
/// with `Timeout` only on an open channel whose deadline has come; it ends
/// with `Disconnected` only on a closed channel; and where it sleeps on,
/// it sleeps no longer than to its deadline. Without a deadline it never
/// ends with `Timeout`.
pub proof fn lemma_receive_keeps_deadline<T>(s: State<T>, waiter: Waiter, now: u64)
    requires
        s.wf(),
        s.receiving(waiter.ticket),
    ensures
        s.recv_resume(waiter, now).1 matches Resume::Done(Err(RecvTimeoutError::Timeout))
            ==> !s.closed && waiter.deadline is Some && now >= waiter.deadline->0 && s.awaits(
            waiter.ticket,
        ),
        s.recv_resume(waiter, now).1 matches Resume::Done(Err(RecvTimeoutError::Disconnected))
            ==> s.closed && s.awaits(waiter.ticket),
        s.recv_resume(waiter, now).1 matches Resume::Done(Ok(value)) ==> s.filled_with(
            waiter.ticket,
            value,
        ),
        s.recv_resume(waiter, now).1 matches Resume::Park(nap) ==> s.recv_resume(waiter, now).0 == s
            && !s.closed && !s.filled(waiter.ticket) && match nap {
            Some(nap) => waiter.deadline is Some && nap > 0 && now + nap == waiter.deadline->0,
            None => waiter.deadline is None,
        },
{
    let ticket = waiter.ticket;
    lemma_only_position(s.detached, ticket);
    if holds(s.detached, ticket) {
        let i = position(s.detached, ticket);
        assert(s.detached[i].side is Receiver);
        assert(s.detached[i].completed() || s.detached[i].queued());
    } else {
        let i = position(s.receivers, ticket);
        assert(s.receivers[i].queued() && s.receivers[i].side is Receiver);
    }
}

} // verus!
