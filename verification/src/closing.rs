//! What closing does: it dismisses those who wait, refuses those who
//! come later, and happens once.

use vstd::prelude::*;
use crate::errors::{RecvTimeoutError, SendTimeoutError, TryRecvError, TrySendError};
use crate::history::{feasible, run, Op};
use crate::model::{holds, position, State};
use crate::wait::{decide, Step, Wait};
use crate::transfer::{
    lemma_receiver_left_unserved, lemma_sender_left_unserved, lemma_waiting_receive_ends,
    lemma_waiting_receive_step, lemma_waiting_send_ends, lemma_waiting_send_step,
};
use crate::wellformed::{lemma_close_wf, lemma_only_position, lemma_position, lemma_run_wf};

verus! {

/// Closing dismisses every waiting call. After the first close, each call
/// that waited is on the wake list, is told to give up whatever its
/// deadline, and ends with `Disconnected`; a send gets its value back.
pub proof fn lemma_close_dismisses<T>(s: State<T>, ticket: u64, deadline: Option<u64>, now: u64)
    requires
        s.wf(),
        !s.closed,
        holds(s.senders, ticket) || holds(s.receivers, ticket),
    ensures
        s.close().1,
        s.close().0.wakeups.contains(ticket),
        decide(s.close().0.ready(ticket), s.close().0.closed, deadline, now) == Wait::Cancel,
        holds(s.senders, ticket) ==> s.close().0.sending(ticket) && s.close().0.send_finish(
            ticket,
        ).1 == Err::<(), _>(
            SendTimeoutError::Disconnected(s.senders[position(s.senders, ticket)].cell->0),
        ),
        holds(s.receivers, ticket) ==> s.close().0.receiving(ticket) && s.close().0.recv_finish(
            ticket,
        ).1 == Err::<T, _>(RecvTimeoutError::Disconnected),
{
    let c = s.close().0;
    lemma_close_wf(s);
    let a = s.detached.len() as int;
    let b = s.senders.len() as int;
    if holds(s.senders, ticket) {
        let i = position(s.senders, ticket);
        assert(c.detached[a + i] == s.senders[i]);
        assert(c.wakeups[s.wakeups.len() + i] == ticket);
        lemma_position(c.detached, ticket, a + i);
        lemma_only_position(c.detached, ticket);
        assert(s.senders[i].queued() && s.senders[i].side is Sender);
    } else {
        let i = position(s.receivers, ticket);
        assert(c.detached[a + b + i] == s.receivers[i]);
        assert(c.wakeups[s.wakeups.len() + b + i] == ticket);
        lemma_position(c.detached, ticket, a + b + i);
        lemma_only_position(c.detached, ticket);
        assert(s.receivers[i].queued() && s.receivers[i].side is Receiver);
    }
}

/// A closed channel refuses. Every send or receive that begins on a closed
/// channel ends at once with `Disconnected`, registers nothing and changes
/// nothing; a send gets its value back.
pub proof fn lemma_closed_refuses<T>(s: State<T>, value: T, deadline: Option<u64>)
    requires
        s.closed,
    ensures
        s.try_send(value) == (s, Err::<(), _>(TrySendError::Disconnected(value))),
        s.try_recv() == (s, Err::<T, _>(TryRecvError::Disconnected)),
        s.send_until(value, deadline) == (
            s,
            Step::Done(Err::<(), _>(SendTimeoutError::Disconnected(value))),
        ),
        s.recv_until(deadline) == (s, Step::Done(Err::<T, _>(RecvTimeoutError::Disconnected))),
{
}

/// A closed channel stays closed, whatever is done to it.
pub proof fn lemma_closed_for_good<T>(s: State<T>, ops: Seq<Op<T>>)
    requires
        s.closed,
    ensures
        run(s, ops).closed,
    decreases ops.len(),
{
    if ops.len() > 0 {
        lemma_closed_for_good(s, ops.drop_last());
    }
}

/// Only the first close closes. It returns `true` and leaves the channel
/// closed; every later one returns `false` and changes nothing.
pub proof fn lemma_close_once<T>(s: State<T>)
    ensures
        s.close().1 == !s.closed,
        s.close().0.closed,
        s.close().0.close() == (s.close().0, false),
{
}

/// On a closed channel no waiting send is served any more. Whatever
/// happens before it ends, a send that waits on a closed channel ends with
/// `Disconnected` and the value that it brought.
pub proof fn lemma_closed_send_fails<T>(s: State<T>, ops: Seq<Op<T>>, ticket: u64, value: T)
    requires
        s.wf(),
        s.closed,
        s.waits_with(ticket, value),
        feasible(s, ops),
        forall|i: int| 0 <= i < ops.len() ==> ops[i] != Op::<T>::SendFinish(ticket),
    ensures
        run(s, ops).waits_with(ticket, value),
        run(s, ops).sending(ticket),
        run(s, ops).send_finish(ticket).1 == Err::<(), _>(SendTimeoutError::Disconnected(value)),
    decreases ops.len(),
{
    if ops.len() > 0 {
        let before = run(s, ops.drop_last());
        let op = ops.last();
        lemma_closed_send_fails(s, ops.drop_last(), ticket, value);
        lemma_run_wf(s, ops.drop_last());
        lemma_closed_for_good(s, ops.drop_last());
        assert(!before.relieved(ticket)) by {
            lemma_waiting_is_unserved(before, ticket);
        }
        lemma_sender_left_unserved(before, op, ticket);
        lemma_waiting_send_step(before, op, ticket, value);
    }
    lemma_run_wf(s, ops);
    lemma_closed_for_good(s, ops);
    lemma_waiting_send_ends(run(s, ops), ticket, value);
}

/// On a closed channel no waiting receive is served any more. Whatever
/// happens before it ends, a receive that waits on a closed channel ends
/// with `Disconnected`.
pub proof fn lemma_closed_receive_fails<T>(s: State<T>, ops: Seq<Op<T>>, ticket: u64)
    requires
        s.wf(),
        s.closed,
        s.awaits(ticket),
        feasible(s, ops),
        forall|i: int| 0 <= i < ops.len() ==> ops[i] != Op::<T>::RecvFinish(ticket),
    ensures
        run(s, ops).awaits(ticket),
        run(s, ops).receiving(ticket),
        run(s, ops).recv_finish(ticket).1 == Err::<T, _>(RecvTimeoutError::Disconnected),
    decreases ops.len(),
{
    if ops.len() > 0 {
        let before = run(s, ops.drop_last());
        let op = ops.last();
        lemma_closed_receive_fails(s, ops.drop_last(), ticket);
        lemma_run_wf(s, ops.drop_last());
        lemma_closed_for_good(s, ops.drop_last());
        assert(!before.filled(ticket)) by {
            lemma_waiting_is_unserved(before, ticket);
        }
        lemma_receiver_left_unserved(before, op, ticket);
        lemma_waiting_receive_step(before, op, ticket);
        assert(forall|value: T|
            op.next(before).filled_with(ticket, value) ==> op.next(before).filled(ticket));
    }
    lemma_run_wf(s, ops);
    lemma_closed_for_good(s, ops);
    lemma_waiting_receive_ends(run(s, ops), ticket);
}

/// A call that still waits has not been served.
proof fn lemma_waiting_is_unserved<T>(s: State<T>, ticket: u64)
    requires
        s.wf(),
    ensures
        (exists|value: T| s.waits_with(ticket, value)) ==> !s.relieved(ticket),
        s.awaits(ticket) ==> !s.filled(ticket),
{
    lemma_only_position(s.detached, ticket);
    if holds(s.senders, ticket) || holds(s.receivers, ticket) {
        crate::wellformed::lemma_queued_not_detached(s, ticket);
    }
}

} // verus!
