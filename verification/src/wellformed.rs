//! Every operation keeps the channel well formed.

use vstd::prelude::*;
use crate::history::{feasible, run, Op};
use crate::model::{apart, distinct, holds, position, State};
use crate::slot::Slot;

verus! {

/// Among distinct tickets, the position of a ticket is the one index that
/// carries it.
pub proof fn lemma_position<T>(slots: Seq<Slot<T>>, ticket: u64, i: int)
    requires
        distinct(slots),
        0 <= i < slots.len(),
        slots[i].ticket == ticket,
    ensures
        holds(slots, ticket),
        position(slots, ticket) == i,
{
    let p = position(slots, ticket);
    assert(0 <= p < slots.len() && slots[p].ticket == ticket);
    if p < i {
        assert(slots[p].ticket != slots[i].ticket);
    } else if i < p {
        assert(slots[i].ticket != slots[p].ticket);
    }
}

/// Among distinct tickets, no index but its position carries a ticket.
pub proof fn lemma_only_position<T>(slots: Seq<Slot<T>>, ticket: u64)
    requires
        distinct(slots),
    ensures
        forall|i: int|
            0 <= i < slots.len() && (#[trigger] slots[i]).ticket == ticket ==> i == position(
                slots,
                ticket,
            ),
{
    assert forall|i: int| 0 <= i < slots.len() && (#[trigger] slots[i]).ticket == ticket implies i
        == position(slots, ticket) by {
        lemma_position(slots, ticket, i);
    }
}

/// Pairing a send with the oldest waiting receiver keeps the channel well
/// formed.
pub proof fn lemma_hand_over_wf<T>(s: State<T>, value: T)
    requires
        s.wf(),
        s.receivers.len() > 0,
    ensures
        s.hand_over(value).wf(),
{
    let n = s.hand_over(value);
    let slot = s.receivers[0];
    let filled = Slot { cell: Some(value), ready: true, ..slot };
    assert(filled.completed());
    assert forall|i: int| 0 <= i < n.receivers.len() implies {
        &&& (#[trigger] n.receivers[i]).side is Receiver
        &&& n.receivers[i].queued()
        &&& n.receivers[i].ticket < n.issued
    } by {
        assert(n.receivers[i] == s.receivers[i + 1]);
    }
    assert forall|i: int| 0 <= i < n.detached.len() implies {
        &&& (#[trigger] n.detached[i]).completed() || (n.closed && n.detached[i].queued())
        &&& n.detached[i].ticket < n.issued
    } by {
        if i < s.detached.len() {
            assert(n.detached[i] == s.detached[i]);
        } else {
            assert(n.detached[i] == filled);
        }
    }
    assert(distinct(n.receivers)) by {
        assert forall|i: int, j: int| 0 <= i < j < n.receivers.len() implies (
        #[trigger] n.receivers[i]).ticket != (#[trigger] n.receivers[j]).ticket by {
            assert(n.receivers[i] == s.receivers[i + 1]);
            assert(n.receivers[j] == s.receivers[j + 1]);
        }
    }
    assert(distinct(n.detached)) by {
        assert forall|i: int, j: int| 0 <= i < j < n.detached.len() implies (
        #[trigger] n.detached[i]).ticket != (#[trigger] n.detached[j]).ticket by {
            assert(n.detached[i] == s.detached[i]);
            if j < s.detached.len() {
                assert(n.detached[j] == s.detached[j]);
            } else {
                assert(s.receivers[0].ticket != s.detached[i].ticket);
            }
        }
    }
    assert(apart(n.receivers, n.detached)) by {
        assert forall|i: int, j: int|
            0 <= i < n.receivers.len() && 0 <= j < n.detached.len() implies (
        #[trigger] n.receivers[i]).ticket != (#[trigger] n.detached[j]).ticket by {
            assert(n.receivers[i] == s.receivers[i + 1]);
            if j < s.detached.len() {
                assert(n.detached[j] == s.detached[j]);
            } else {
                assert(s.receivers[0].ticket != s.receivers[i + 1].ticket);
            }
        }
    }
    assert(apart(n.senders, n.detached));
    assert(apart(n.senders, n.receivers));
}

/// Pairing a receive with the oldest waiting sender keeps the channel well
/// formed.
pub proof fn lemma_relieve_wf<T>(s: State<T>)
    requires
        s.wf(),
        s.senders.len() > 0,
    ensures
        s.relieve().wf(),
{
    let n = s.relieve();
    let slot = s.senders[0];
    let emptied = Slot { cell: None, ready: true, ..slot };
    assert(emptied.completed());
    assert forall|i: int| 0 <= i < n.senders.len() implies {
        &&& (#[trigger] n.senders[i]).side is Sender
        &&& n.senders[i].queued()
        &&& n.senders[i].ticket < n.issued
    } by {
        assert(n.senders[i] == s.senders[i + 1]);
    }
    assert forall|i: int| 0 <= i < n.detached.len() implies {
        &&& (#[trigger] n.detached[i]).completed() || (n.closed && n.detached[i].queued())
        &&& n.detached[i].ticket < n.issued
    } by {
        if i < s.detached.len() {
            assert(n.detached[i] == s.detached[i]);
        } else {
            assert(n.detached[i] == emptied);
        }
    }
    assert(distinct(n.senders)) by {
        assert forall|i: int, j: int| 0 <= i < j < n.senders.len() implies (
        #[trigger] n.senders[i]).ticket != (#[trigger] n.senders[j]).ticket by {
            assert(n.senders[i] == s.senders[i + 1]);
            assert(n.senders[j] == s.senders[j + 1]);
        }
    }
    assert(distinct(n.detached)) by {
        assert forall|i: int, j: int| 0 <= i < j < n.detached.len() implies (
        #[trigger] n.detached[i]).ticket != (#[trigger] n.detached[j]).ticket by {
            assert(n.detached[i] == s.detached[i]);
            if j < s.detached.len() {
                assert(n.detached[j] == s.detached[j]);
            } else {
                assert(s.senders[0].ticket != s.detached[i].ticket);
            }
        }
    }
    assert(apart(n.senders, n.detached)) by {
        assert forall|i: int, j: int|
            0 <= i < n.senders.len() && 0 <= j < n.detached.len() implies (
        #[trigger] n.senders[i]).ticket != (#[trigger] n.detached[j]).ticket by {
            assert(n.senders[i] == s.senders[i + 1]);
            if j < s.detached.len() {
                assert(n.detached[j] == s.detached[j]);
            } else {
                assert(s.senders[0].ticket != s.senders[i + 1].ticket);
            }
        }
    }
    assert(apart(n.receivers, n.detached));
    assert(apart(n.senders, n.receivers));
}

/// Registering a sender keeps the channel well formed.
pub proof fn lemma_enlist_sender_wf<T>(s: State<T>, value: T)
    requires
        s.wf(),
        !s.closed,
        s.receivers.len() == 0,
        s.issued < u64::MAX,
    ensures
        s.enlist_sender(value).wf(),
{
    let n = s.enlist_sender(value);
    assert forall|i: int| 0 <= i < n.senders.len() implies {
        &&& (#[trigger] n.senders[i]).side is Sender
        &&& n.senders[i].queued()
        &&& n.senders[i].ticket < n.issued
    } by {
        if i < s.senders.len() {
            assert(n.senders[i] == s.senders[i]);
        }
    }
    assert forall|i: int| 0 <= i < n.detached.len() implies {
        &&& (#[trigger] n.detached[i]).completed() || (n.closed && n.detached[i].queued())
        &&& n.detached[i].ticket < n.issued
    } by {
        assert(n.detached[i] == s.detached[i]);
    }
    assert(distinct(n.senders)) by {
        assert forall|i: int, j: int| 0 <= i < j < n.senders.len() implies (
        #[trigger] n.senders[i]).ticket != (#[trigger] n.senders[j]).ticket by {
            assert(n.senders[i] == s.senders[i]);
            if j < s.senders.len() {
                assert(n.senders[j] == s.senders[j]);
            }
        }
    }
    assert(apart(n.senders, n.detached)) by {
        assert forall|i: int, j: int|
            0 <= i < n.senders.len() && 0 <= j < n.detached.len() implies (
        #[trigger] n.senders[i]).ticket != (#[trigger] n.detached[j]).ticket by {
            assert(n.detached[j] == s.detached[j]);
            if i < s.senders.len() {
                assert(n.senders[i] == s.senders[i]);
            }
        }
    }
}

/// Registering a receiver keeps the channel well formed.
pub proof fn lemma_enlist_receiver_wf<T>(s: State<T>)
    requires
        s.wf(),
        !s.closed,
        s.senders.len() == 0,
        s.issued < u64::MAX,
    ensures
        s.enlist_receiver().wf(),
{
    let n = s.enlist_receiver();
    assert forall|i: int| 0 <= i < n.receivers.len() implies {
        &&& (#[trigger] n.receivers[i]).side is Receiver
        &&& n.receivers[i].queued()
        &&& n.receivers[i].ticket < n.issued
    } by {
        if i < s.receivers.len() {
            assert(n.receivers[i] == s.receivers[i]);
        }
    }
    assert forall|i: int| 0 <= i < n.detached.len() implies {
        &&& (#[trigger] n.detached[i]).completed() || (n.closed && n.detached[i].queued())
        &&& n.detached[i].ticket < n.issued
    } by {
        assert(n.detached[i] == s.detached[i]);
    }
    assert(distinct(n.receivers)) by {
        assert forall|i: int, j: int| 0 <= i < j < n.receivers.len() implies (
        #[trigger] n.receivers[i]).ticket != (#[trigger] n.receivers[j]).ticket by {
            assert(n.receivers[i] == s.receivers[i]);
            if j < s.receivers.len() {
                assert(n.receivers[j] == s.receivers[j]);
            }
        }
    }
    assert(apart(n.receivers, n.detached)) by {
        assert forall|i: int, j: int|
            0 <= i < n.receivers.len() && 0 <= j < n.detached.len() implies (
        #[trigger] n.receivers[i]).ticket != (#[trigger] n.detached[j]).ticket by {
            assert(n.detached[j] == s.detached[j]);
            if i < s.receivers.len() {
                assert(n.receivers[i] == s.receivers[i]);
            }
        }
    }
}

/// Closing keeps the channel well formed.
pub proof fn lemma_close_wf<T>(s: State<T>)
    requires
        s.wf(),
    ensures
        s.close().0.wf(),
{
    if !s.closed {
        let n = s.close().0;
        let a = s.detached.len();
        let b = s.senders.len();
        assert forall|i: int| 0 <= i < n.detached.len() implies {
            &&& (#[trigger] n.detached[i]).completed() || (n.closed && n.detached[i].queued())
            &&& n.detached[i].ticket < n.issued
        } by {
            if i < a {
                assert(n.detached[i] == s.detached[i]);
            } else if i < a + b {
                assert(n.detached[i] == s.senders[i - a]);
            } else {
                assert(n.detached[i] == s.receivers[i - a - b]);
            }
        }
        assert(distinct(n.detached)) by {
            assert forall|i: int, j: int| 0 <= i < j < n.detached.len() implies (
            #[trigger] n.detached[i]).ticket != (#[trigger] n.detached[j]).ticket by {
                if i < a {
                    assert(n.detached[i] == s.detached[i]);
                } else if i < a + b {
                    assert(n.detached[i] == s.senders[i - a]);
                } else {
                    assert(n.detached[i] == s.receivers[i - a - b]);
                }
                if j < a {
                    assert(n.detached[j] == s.detached[j]);
                } else if j < a + b {
                    assert(n.detached[j] == s.senders[j - a]);
                } else {
                    assert(n.detached[j] == s.receivers[j - a - b]);
                }
            }
        }
    }
}

/// Ending a send that waited keeps the channel well formed.
pub proof fn lemma_send_finish_wf<T>(s: State<T>, ticket: u64)
    requires
        s.wf(),
        s.sending(ticket),
    ensures
        s.send_finish(ticket).0.wf(),
{
    let n = s.send_finish(ticket).0;
    if holds(s.detached, ticket) {
        lemma_detached_remove_wf(s, position(s.detached, ticket));
    } else {
        let k = position(s.senders, ticket);
        assert forall|i: int| 0 <= i < n.senders.len() implies {
            &&& (#[trigger] n.senders[i]).side is Sender
            &&& n.senders[i].queued()
            &&& n.senders[i].ticket < n.issued
        } by {
            if i < k {
                assert(n.senders[i] == s.senders[i]);
            } else {
                assert(n.senders[i] == s.senders[i + 1]);
            }
        }
        assert(distinct(n.senders)) by {
            assert forall|i: int, j: int| 0 <= i < j < n.senders.len() implies (
            #[trigger] n.senders[i]).ticket != (#[trigger] n.senders[j]).ticket by {
                let i0 = if i < k { i } else { i + 1 };
                let j0 = if j < k { j } else { j + 1 };
                assert(n.senders[i] == s.senders[i0]);
                assert(n.senders[j] == s.senders[j0]);
            }
        }
        assert(apart(n.senders, n.detached)) by {
            assert forall|i: int, j: int|
                0 <= i < n.senders.len() && 0 <= j < n.detached.len() implies (
            #[trigger] n.senders[i]).ticket != (#[trigger] n.detached[j]).ticket by {
                let i0 = if i < k { i } else { i + 1 };
                assert(n.senders[i] == s.senders[i0]);
            }
        }
    }
}

/// Ending a receive that waited keeps the channel well formed.
pub proof fn lemma_recv_finish_wf<T>(s: State<T>, ticket: u64)
    requires
        s.wf(),
        s.receiving(ticket),
    ensures
        s.recv_finish(ticket).0.wf(),
{
    let n = s.recv_finish(ticket).0;
    if holds(s.detached, ticket) {
        lemma_detached_remove_wf(s, position(s.detached, ticket));
    } else {
        let k = position(s.receivers, ticket);
        assert forall|i: int| 0 <= i < n.receivers.len() implies {
            &&& (#[trigger] n.receivers[i]).side is Receiver
            &&& n.receivers[i].queued()
            &&& n.receivers[i].ticket < n.issued
        } by {
            if i < k {
                assert(n.receivers[i] == s.receivers[i]);
            } else {
                assert(n.receivers[i] == s.receivers[i + 1]);
            }
        }
        assert(distinct(n.receivers)) by {
            assert forall|i: int, j: int| 0 <= i < j < n.receivers.len() implies (
            #[trigger] n.receivers[i]).ticket != (#[trigger] n.receivers[j]).ticket by {
                let i0 = if i < k { i } else { i + 1 };
                let j0 = if j < k { j } else { j + 1 };
                assert(n.receivers[i] == s.receivers[i0]);
                assert(n.receivers[j] == s.receivers[j0]);
            }
        }
        assert(apart(n.receivers, n.detached)) by {
            assert forall|i: int, j: int|
                0 <= i < n.receivers.len() && 0 <= j < n.detached.len() implies (
            #[trigger] n.receivers[i]).ticket != (#[trigger] n.detached[j]).ticket by {
                let i0 = if i < k { i } else { i + 1 };
                assert(n.receivers[i] == s.receivers[i0]);
            }
        }
        assert(apart(n.senders, n.receivers));
    }
}

/// Dropping one detached slot keeps the channel well formed.
proof fn lemma_detached_remove_wf<T>(s: State<T>, k: int)
    requires
        s.wf(),
        0 <= k < s.detached.len(),
    ensures
        (State { detached: s.detached.remove(k), ..s }).wf(),
{
    let n = State { detached: s.detached.remove(k), ..s };
    assert forall|i: int| 0 <= i < n.detached.len() implies {
        &&& (#[trigger] n.detached[i]).completed() || (n.closed && n.detached[i].queued())
        &&& n.detached[i].ticket < n.issued
    } by {
        let i0 = if i < k { i } else { i + 1 };
        assert(n.detached[i] == s.detached[i0]);
    }
    assert(distinct(n.detached)) by {
        assert forall|i: int, j: int| 0 <= i < j < n.detached.len() implies (
        #[trigger] n.detached[i]).ticket != (#[trigger] n.detached[j]).ticket by {
            let i0 = if i < k { i } else { i + 1 };
            let j0 = if j < k { j } else { j + 1 };
            assert(n.detached[i] == s.detached[i0]);
            assert(n.detached[j] == s.detached[j0]);
        }
    }
    assert(apart(n.senders, n.detached)) by {
        assert forall|i: int, j: int|
            0 <= i < n.senders.len() && 0 <= j < n.detached.len() implies (
        #[trigger] n.senders[i]).ticket != (#[trigger] n.detached[j]).ticket by {
            let j0 = if j < k { j } else { j + 1 };
            assert(n.detached[j] == s.detached[j0]);
        }
    }
    assert(apart(n.receivers, n.detached)) by {
        assert forall|i: int, j: int|
            0 <= i < n.receivers.len() && 0 <= j < n.detached.len() implies (
        #[trigger] n.receivers[i]).ticket != (#[trigger] n.detached[j]).ticket by {
            let j0 = if j < k { j } else { j + 1 };
            assert(n.detached[j] == s.detached[j0]);
        }
    }
}

/// One operation keeps the channel well formed.
pub proof fn lemma_step_wf<T>(s: State<T>, op: Op<T>)
    requires
        s.wf(),
        op.enabled(s),
    ensures
        op.next(s).wf(),
{
    match op {
        Op::TrySend(value) => {
            if !s.closed && s.receivers.len() > 0 {
                lemma_hand_over_wf(s, value);
            }
        },
        Op::TryRecv => {
            if !s.closed && s.senders.len() > 0 {
                lemma_relieve_wf(s);
            }
        },
        Op::SendUntil(value, _) => {
            if !s.closed {
                if s.receivers.len() > 0 {
                    lemma_hand_over_wf(s, value);
                } else {
                    lemma_enlist_sender_wf(s, value);
                }
            }
        },
        Op::RecvUntil(_) => {
            if !s.closed {
                if s.senders.len() > 0 {
                    lemma_relieve_wf(s);
                } else {
                    lemma_enlist_receiver_wf(s);
                }
            }
        },
        Op::SendFinish(ticket) => {
            lemma_send_finish_wf(s, ticket);
        },
        Op::RecvFinish(ticket) => {
            lemma_recv_finish_wf(s, ticket);
        },
        Op::Close => {
            lemma_close_wf(s);
        },
        Op::TakeWakeups => {},
    }
}

/// Every run keeps the channel well formed.
pub proof fn lemma_run_wf<T>(s: State<T>, ops: Seq<Op<T>>)
    requires
        s.wf(),
        feasible(s, ops),
    ensures
        run(s, ops).wf(),
    decreases ops.len(),
{
    if ops.len() > 0 {
        lemma_run_wf(s, ops.drop_last());
        lemma_step_wf(run(s, ops.drop_last()), ops.last());
    }
}

/// What is left after the slot of `ticket` is removed was there before.
pub proof fn lemma_remove_keeps<T>(slots: Seq<Slot<T>>, ticket: u64, k: int)
    requires
        holds(slots, ticket),
        0 <= k < slots.len() - 1,
    ensures
        slots.remove(position(slots, ticket))[k] == slots[if k >= position(slots, ticket) {
            k + 1
        } else {
            k
        }],
{
}

/// A ticket in a wait queue is on no detached slot.
pub proof fn lemma_queued_not_detached<T>(s: State<T>, ticket: u64)
    requires
        s.wf(),
        holds(s.senders, ticket) || holds(s.receivers, ticket),
    ensures
        !holds(s.detached, ticket),
{
    if holds(s.senders, ticket) {
        let i = position(s.senders, ticket);
        assert forall|k: int| 0 <= k < s.detached.len() implies (#[trigger] s.detached[k]).ticket
            != ticket by {
            assert(s.senders[i].ticket != s.detached[k].ticket);
        }
    } else {
        let i = position(s.receivers, ticket);
        assert forall|k: int| 0 <= k < s.detached.len() implies (#[trigger] s.detached[k]).ticket
            != ticket by {
            assert(s.receivers[i].ticket != s.detached[k].ticket);
        }
    }
}

} // verus!
